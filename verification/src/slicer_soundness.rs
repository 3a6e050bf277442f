//! The slices of a comparison are sound for expressions built with `+` and
//! `-`: in every state of the program that agrees with the variables as the
//! analysis knows them, a variable lies in the pass range of each of its
//! slices where the comparison holds, and in the fail range where it fails.
//!
//! The integers of the program are taken as they are, without wrap-around,
//! and so the statement leaves out the comparisons in which an endpoint
//! computed on the way wraps around.

use vstd::prelude::*;
use vstd::wrapping::i64_specs::{wrapping_add, wrapping_sub};
use crate::bounded_value::BoundedValue;
use crate::interval_laws::{lemma_hull_holds, lemma_intersection_with_range};
use crate::numerical_value::{
    hull_of,
    intersection_of,
    ordered,
    seq_holds,
    single,
    Inclusivity,
};
use crate::numerical_value_analysis::{
    binary_operator,
    checked_apply,
    comparison_operator,
    comparison_spec,
    descend_spec,
    eval_hull,
    fail_range,
    left_target,
    lookup,
    pass_range,
    right_operator,
    right_target,
    slice_of,
    universe_seq,
    BinaryOperator,
    ComparisonOperator,
    Env,
    Interval,
    Scalar,
    SliceView,
};
use crate::parse::Expression;
use crate::range_arithmetic::tightening;

verus! {

/// An integer of the 64-bit range lies in a range exactly where the range
/// holds the position of the integer.
pub proof fn lemma_contains_int_holds(r: Interval, k: int)
    requires
        i64::MIN <= k <= i64::MAX,
    ensures
        r.contains_int(k) <==> r.holds(3 * k),
{
}

/// Whether the sum of two extended integers is taken without wrap-around.
pub open spec fn scalar_sum_exact(a: Scalar, b: Scalar) -> bool {
    &&& a.sum_defined(b)
    &&& match (a, b) {
        (BoundedValue::Raw(x), BoundedValue::Raw(y)) => i64::MIN <= x + y <= i64::MAX,
        _ => true,
    }
}

/// Whether an extended integer is moved by `step` without wrap-around.
pub open spec fn shift_exact(v: Scalar, step: int) -> bool {
    v matches BoundedValue::Raw(x) ==> i64::MIN <= x + step <= i64::MAX
}

/// Whether the sum of two ranges is taken without wrap-around at either
/// end.
pub open spec fn sum_exact(l: Interval, r: Interval) -> bool {
    &&& scalar_sum_exact(l.min.value, r.min.value)
    &&& shift_exact(
        l.min.value.sum(r.min.value),
        tightening(l.min.inclusivity, r.min.inclusivity, 1i64) as int,
    )
    &&& scalar_sum_exact(l.max.value, r.max.value)
    &&& shift_exact(
        l.max.value.sum(r.max.value),
        tightening(l.max.inclusivity, r.max.inclusivity, -1i64) as int,
    )
}

/// Whether the endpoints of a range are negated without wrap-around.
pub open spec fn negation_exact(r: Interval) -> bool {
    &&& r.min.value != BoundedValue::Raw(i64::MIN)
    &&& r.max.value != BoundedValue::Raw(i64::MIN)
}

/// Whether the difference of two ranges is taken without wrap-around.
pub open spec fn difference_exact(l: Interval, r: Interval) -> bool {
    &&& negation_exact(r)
    &&& sum_exact(l, r.negated())
}

/// The sum of an integer of one range and an integer of another lies in
/// the sum of the two ranges.
pub proof fn lemma_sum_sound(l: Interval, r: Interval, n1: int, n2: int)
    requires
        l.contains_int(n1),
        r.contains_int(n2),
        sum_exact(l, r),
    ensures
        l.sum_defined(r),
        l.sum(r).contains_int(n1 + n2),
{
    if let (BoundedValue::Raw(a), BoundedValue::Raw(b)) = (l.min.value, r.min.value) {
        let t = tightening(l.min.inclusivity, r.min.inclusivity, 1i64);
        assert(wrapping_add(a, b) == a + b);
        assert(wrapping_add((a + b) as i64, t) == a + b + t);
    }
    if let (BoundedValue::Raw(a), BoundedValue::Raw(b)) = (l.max.value, r.max.value) {
        let t = tightening(l.max.inclusivity, r.max.inclusivity, -1i64);
        assert(wrapping_add(a, b) == a + b);
        assert(wrapping_add((a + b) as i64, t) == a + b + t);
    }
}

/// The negative of an integer of a range lies in the negated range.
pub proof fn lemma_negation_sound(r: Interval, n: int)
    requires
        r.contains_int(n),
        negation_exact(r),
    ensures
        r.negated().contains_int(-n),
{
    if let BoundedValue::Raw(a) = r.min.value {
        assert(wrapping_sub(0, a) == -a);
    }
    if let BoundedValue::Raw(b) = r.max.value {
        assert(wrapping_sub(0, b) == -b);
    }
}

/// The difference of an integer of one range and an integer of another
/// lies in the difference of the two ranges.
pub proof fn lemma_difference_sound(l: Interval, r: Interval, n1: int, n2: int)
    requires
        l.contains_int(n1),
        r.contains_int(n2),
        difference_exact(l, r),
    ensures
        l.difference_defined(r),
        l.difference(r).contains_int(n1 - n2),
{
    lemma_negation_sound(r, n2);
    lemma_sum_sound(l, r.negated(), n1, -n2);
}

/// A state of the program: the integer that each variable has, and the
/// integer that each unknown expression has, told apart by the place of the
/// expression within the comparison.
pub ghost struct ProgramState {
    pub variables: spec_fn(Seq<char>) -> int,
    pub unknowns: spec_fn(Seq<bool>) -> int,
}

/// Whether the expression is built of numbers, variables, unknown values
/// and the operators `+` and `-` alone.
pub open spec fn linear(expr: Expression) -> bool
    decreases expr,
{
    match expr {
        Expression::Binary { left, op, right } => (binary_operator(op@) == Some(
            BinaryOperator::Add,
        ) || binary_operator(op@) == Some(BinaryOperator::Subtract)) && linear(*left) && linear(
            *right,
        ),
        _ => true,
    }
}

/// The value of a linear expression in a state of the program, with the
/// integers taken as they are. The expression stands at the place `path`:
/// the left side of an operation stands at the place of the operation with
/// `false` added, the right side with `true` added.
pub open spec fn value(expr: Expression, state: ProgramState, path: Seq<bool>) -> int
    decreases expr,
{
    match expr {
        Expression::Number(c) => c as int,
        Expression::Identifier(name) => (state.variables)(name@),
        Expression::Other => (state.unknowns)(path),
        Expression::Binary { left, op, right } => if binary_operator(op@) == Some(
            BinaryOperator::Add,
        ) {
            value(*left, state, path.push(false)) + value(*right, state, path.push(true))
        } else {
            value(*left, state, path.push(false)) - value(*right, state, path.push(true))
        },
    }
}

/// Whether the comparison holds of the two integers.
pub open spec fn holds_of(op: ComparisonOperator, a: int, b: int) -> bool {
    match op {
        ComparisonOperator::Less => a < b,
        ComparisonOperator::LessEqual => a <= b,
        ComparisonOperator::Greater => a > b,
        ComparisonOperator::GreaterEqual => a >= b,
        ComparisonOperator::Equals => a == b,
        ComparisonOperator::NotEquals => a != b,
    }
}

/// Whether the state agrees with what the analysis knows: every variable
/// is a 64-bit integer, and one that the analysis has a value for lies in
/// that value.
pub open spec fn consistent(state: ProgramState, env: Env) -> bool {
    &&& forall|v: Seq<char>| i64::MIN <= #[trigger] (state.variables)(v) <= i64::MAX
    &&& forall|v: Seq<char>| #[trigger]
        env.contains_key(v) ==> ordered(env[v]) && seq_holds(env[v], 3 * (state.variables)(v))
}

/// Whether the value of the expression is computed without wrap-around.
pub open spec fn eval_exact(expr: Expression, env: Env) -> bool
    decreases expr,
{
    match expr {
        Expression::Binary { left, op, right } => eval_exact(*left, env) && eval_exact(
            *right,
            env,
        ) && match (eval_hull(*left, env), eval_hull(*right, env)) {
            (Ok(l), Ok(r)) => if binary_operator(op@) == Some(BinaryOperator::Add) {
                sum_exact(l, r)
            } else {
                difference_exact(l, r)
            },
            _ => true,
        },
        _ => true,
    }
}

/// Whether the two strict bounds of a target are taken without
/// wrap-around.
pub open spec fn strict_exact(target: Interval) -> bool {
    &&& target.max.inclusivity == Inclusivity::Exclusive ==> shift_exact(target.max.value, -1)
    &&& target.min.inclusivity == Inclusivity::Exclusive ==> shift_exact(target.min.value, 1)
}

/// Whether the slices of the expression against `target` are computed
/// without wrap-around.
pub open spec fn descend_exact(expr: Expression, target: Interval, env: Env) -> bool
    decreases expr,
{
    match expr {
        Expression::Identifier(_) => strict_exact(target),
        Expression::Binary { left, op, right } => eval_exact(*left, env) && eval_exact(
            *right,
            env,
        ) && match (eval_hull(*left, env), eval_hull(*right, env)) {
            (Ok(l), Ok(r)) => if binary_operator(op@) == Some(BinaryOperator::Add) {
                &&& difference_exact(target, r)
                &&& descend_exact(*left, target.difference(r), env)
                &&& difference_exact(target, l)
                &&& descend_exact(*right, target.difference(l), env)
            } else {
                &&& sum_exact(target, r)
                &&& descend_exact(*left, target.sum(r), env)
                &&& difference_exact(l, target)
                &&& descend_exact(*right, l.difference(target), env)
            },
            _ => true,
        },
        _ => true,
    }
}

/// Whether the slice says the truth of the state: its variable lies in the
/// pass range where the comparison holds, in the fail range where it
/// fails.
pub open spec fn slice_sound(s: SliceView, state: ProgramState, holds: bool) -> bool {
    if holds {
        s.pass.contains_int((state.variables)(s.name))
    } else {
        s.fail.contains_int((state.variables)(s.name))
    }
}

/// A comparison fails exactly where the negated comparison holds, and
/// holds exactly where the flipped comparison holds of the two integers in
/// the other order.
pub proof fn lemma_holds_of(op: ComparisonOperator, a: int, b: int)
    ensures
        holds_of(op.negated(), a, b) == !holds_of(op, a, b),
        holds_of(op.flipped(), b, a) == holds_of(op, a, b),
{
}

/// An integer that compares by `op` to an integer of `target` lies in the
/// pass range of `target`.
pub proof fn lemma_pass_sound(target: Interval, op: ComparisonOperator, x: int, m: int)
    requires
        target.contains_int(m),
        strict_exact(target),
        holds_of(op, x, m),
    ensures
        pass_range(target, op).contains_int(x),
{
    if let BoundedValue::Raw(b) = target.max.value {
        if target.max.inclusivity == Inclusivity::Exclusive {
            assert(wrapping_add(b, -1i64) == b - 1);
        }
    }
    if let BoundedValue::Raw(a) = target.min.value {
        if target.min.inclusivity == Inclusivity::Exclusive {
            assert(wrapping_add(a, 1i64) == a + 1);
        }
    }
}

/// The slice of a variable says the truth of every state in which the
/// variable lies in the value that is sliced.
pub proof fn lemma_slice_sound(
    name: Seq<char>,
    value: Seq<Interval>,
    target: Interval,
    op: ComparisonOperator,
    state: ProgramState,
    m: int,
)
    requires
        ordered(value),
        i64::MIN <= (state.variables)(name) <= i64::MAX,
        seq_holds(value, 3 * (state.variables)(name)),
        target.contains_int(m),
        strict_exact(target),
    ensures
        forall|i: int|
            0 <= i < slice_of(name, value, target, op).len() ==> slice_sound(
                #[trigger] slice_of(name, value, target, op)[i],
                state,
                holds_of(op, (state.variables)(name), m),
            ),
{
    reveal(slice_of);
    let x = (state.variables)(name);
    let slices = slice_of(name, value, target, op);
    let pr = pass_range(target, op);
    let fr = fail_range(target, op);
    if slices.len() > 0 {
        lemma_holds_of(op, x, m);
        lemma_intersection_with_range(value, pr);
        lemma_intersection_with_range(value, fr);
        let ip = intersection_of(value, single(pr));
        let iq = intersection_of(value, single(fr));
        if holds_of(op, x, m) {
            lemma_pass_sound(target, op, x, m);
            lemma_contains_int_holds(pr, x);
            assert(seq_holds(ip, 3 * x));
            lemma_hull_holds(ip, 3 * x);
            lemma_contains_int_holds(hull_of(ip).unwrap(), x);
        } else {
            lemma_pass_sound(target, op.negated(), x, m);
            lemma_contains_int_holds(fr, x);
            assert(seq_holds(iq, 3 * x));
            lemma_hull_holds(iq, 3 * x);
            lemma_contains_int_holds(hull_of(iq).unwrap(), x);
        }
    }
}

/// The value of a variable as the analysis looks it up holds the integer
/// of the variable in every state that agrees with the analysis.
pub proof fn lemma_lookup_sound(env: Env, name: Seq<char>, state: ProgramState)
    requires
        consistent(state, env),
    ensures
        ordered(lookup(env, name)),
        i64::MIN <= (state.variables)(name) <= i64::MAX,
        seq_holds(lookup(env, name), 3 * (state.variables)(name)),
{
    let x = (state.variables)(name);
    assert(i64::MIN <= x <= i64::MAX);
    if env.contains_key(name) {
    } else {
        let all = universe_seq();
        assert(all[0].holds(3 * x));
    }
}

/// The range that the analysis gives an expression holds the value that the
/// expression has in a state that agrees with the analysis.
pub proof fn lemma_eval_sound(expr: Expression, env: Env, state: ProgramState, path: Seq<bool>)
    requires
        consistent(state, env),
        linear(expr),
        eval_exact(expr, env),
        eval_hull(expr, env) is Ok,
    ensures
        eval_hull(expr, env).unwrap().contains_int(value(expr, state, path)),
    decreases expr,
{
    let n = value(expr, state, path);
    match expr {
        Expression::Number(c) => {},
        Expression::Identifier(name) => {
            lemma_lookup_sound(env, name@, state);
            let s = lookup(env, name@);
            lemma_hull_holds(s, 3 * n);
            lemma_contains_int_holds(hull_of(s).unwrap(), n);
        },
        Expression::Other => {},
        Expression::Binary { left, op, right } => {
            reveal(checked_apply);
            let n1 = value(*left, state, path.push(false));
            let n2 = value(*right, state, path.push(true));
            lemma_eval_sound(*left, env, state, path.push(false));
            lemma_eval_sound(*right, env, state, path.push(true));
            let l = eval_hull(*left, env).unwrap();
            let r = eval_hull(*right, env).unwrap();
            if binary_operator(op@) == Some(BinaryOperator::Add) {
                lemma_sum_sound(l, r, n1, n2);
            } else {
                lemma_difference_sound(l, r, n1, n2);
            }
        },
    }
}

/// What the two sides of a sum and of a difference are compared to.
pub proof fn lemma_linear_targets(target: Interval, l: Interval, r: Interval)
    ensures
        left_target(BinaryOperator::Add, target, r) == (if target.difference_defined(r) {
            Some(target.difference(r))
        } else {
            None
        }),
        right_target(BinaryOperator::Add, target, l) == (if target.difference_defined(l) {
            Some(target.difference(l))
        } else {
            None
        }),
        left_target(BinaryOperator::Subtract, target, r) == (if target.sum_defined(r) {
            Some(target.sum(r))
        } else {
            None
        }),
        right_target(BinaryOperator::Subtract, target, l) == (if l.difference_defined(target) {
            Some(l.difference(target))
        } else {
            None
        }),
{
    reveal(checked_apply);
    reveal(left_target);
    reveal(right_target);
}

/// Two lists of slices that say the truth of a state do so when joined.
pub proof fn lemma_joined_sound(
    s1: Seq<SliceView>,
    s2: Seq<SliceView>,
    state: ProgramState,
    holds: bool,
)
    requires
        forall|i: int| 0 <= i < s1.len() ==> slice_sound(#[trigger] s1[i], state, holds),
        forall|i: int| 0 <= i < s2.len() ==> slice_sound(#[trigger] s2[i], state, holds),
    ensures
        forall|i: int| 0 <= i < (s1 + s2).len()
            ==> slice_sound(#[trigger] (s1 + s2)[i], state, holds),
{
    assert forall|i: int| 0 <= i < (s1 + s2).len() implies slice_sound(
        #[trigger] (s1 + s2)[i],
        state,
        holds,
    ) by {
        if i < s1.len() {
            assert((s1 + s2)[i] == s1[i]);
        } else {
            assert((s1 + s2)[i] == s2[i - s1.len()]);
        }
    }
}

/// The slices of an expression say the truth of every state that agrees
/// with the analysis, where the expression is compared to an integer of the
/// target.
pub proof fn lemma_descend_sound(
    expr: Expression,
    target: Interval,
    op: ComparisonOperator,
    env: Env,
    state: ProgramState,
    path: Seq<bool>,
    m: int,
)
    requires
        consistent(state, env),
        linear(expr),
        descend_exact(expr, target, env),
        target.contains_int(m),
        descend_spec(expr, target, op, env) is Ok,
    ensures
        forall|i: int|
            0 <= i < descend_spec(expr, target, op, env).unwrap().len() ==> slice_sound(
                #[trigger] descend_spec(expr, target, op, env).unwrap()[i],
                state,
                holds_of(op, value(expr, state, path), m),
            ),
    decreases expr,
{
    let n = value(expr, state, path);
    let slices = descend_spec(expr, target, op, env).unwrap();
    match expr {
        Expression::Identifier(name) => {
            lemma_lookup_sound(env, name@, state);
            lemma_slice_sound(name@, lookup(env, name@), target, op, state, m);
        },
        Expression::Binary { left, op: operator, right } => {
            let n1 = value(*left, state, path.push(false));
            let n2 = value(*right, state, path.push(true));
            lemma_eval_sound(*left, env, state, path.push(false));
            lemma_eval_sound(*right, env, state, path.push(true));
            let l = eval_hull(*left, env).unwrap();
            let r = eval_hull(*right, env).unwrap();
            let b = binary_operator(operator@).unwrap();
            lemma_linear_targets(target, l, r);
            let to_left = left_target(b, target, r).unwrap();
            let to_right = right_target(b, target, l).unwrap();
            let right_op = right_operator(b, op);
            let s1 = descend_spec(*left, to_left, op, env).unwrap();
            let s2 = descend_spec(*right, to_right, right_op, env).unwrap();
            assert(slices == s1 + s2);
            let holds = holds_of(op, n, m);
            if b == BinaryOperator::Add {
                lemma_difference_sound(target, r, m, n2);
                lemma_difference_sound(target, l, m, n1);
                lemma_descend_sound(*left, to_left, op, env, state, path.push(false), m - n2);
                lemma_descend_sound(*right, to_right, right_op, env, state, path.push(true),
                    m - n1);
                assert(holds == holds_of(op, n1, m - n2));
                assert(holds == holds_of(right_op, n2, m - n1));
            } else {
                lemma_sum_sound(target, r, m, n2);
                lemma_difference_sound(l, target, n1, m);
                lemma_descend_sound(*left, to_left, op, env, state, path.push(false), m + n2);
                lemma_descend_sound(*right, to_right, right_op, env, state, path.push(true),
                    n1 - m);
                assert(holds == holds_of(op, n1, m + n2));
                assert(holds == holds_of(right_op, n2, n1 - m));
            }
            lemma_joined_sound(s1, s2, state, holds);
        },
        _ => {},
    }
}

/// Whether the slices of a comparison are computed without wrap-around.
pub open spec fn comparison_exact(left: Expression, right: Expression, env: Env) -> bool {
    &&& eval_exact(left, env)
    &&& eval_exact(right, env)
    &&& match (eval_hull(left, env), eval_hull(right, env)) {
        (Ok(l), Ok(r)) => descend_exact(left, r, env) && descend_exact(right, l, env),
        _ => true,
    }
}

/// The slices of a comparison are sound.
///
/// Take a comparison of two expressions built with `+` and `-`, whose
/// slices are computed without wrap-around, and a state of the program that
/// agrees with the variables as the analysis knows them. Where the
/// comparison holds in that state, each variable lies in the pass range of
/// every slice of it; where the comparison fails, in the fail range.
pub proof fn law_slices_sound(
    left: Expression,
    op: Seq<char>,
    right: Expression,
    env: Env,
    state: ProgramState,
)
    requires
        consistent(state, env),
        linear(left),
        linear(right),
        comparison_exact(left, right, env),
        comparison_spec(left, op, right, env) is Ok,
    ensures
        forall|i: int|
            0 <= i < comparison_spec(left, op, right, env).unwrap().0.len() ==> slice_sound(
                #[trigger] comparison_spec(left, op, right, env).unwrap().0[i],
                state,
                holds_of(
                    comparison_operator(op).unwrap(),
                    value(left, state, seq![false]),
                    value(right, state, seq![true]),
                ),
            ),
{
    let c = comparison_operator(op).unwrap();
    let l = eval_hull(left, env).unwrap();
    let r = eval_hull(right, env).unwrap();
    let nl = value(left, state, seq![false]);
    let nr = value(right, state, seq![true]);
    let s1 = descend_spec(left, r, c, env).unwrap();
    let s2 = descend_spec(right, l, c.flipped(), env).unwrap();
    let slices = comparison_spec(left, op, right, env).unwrap().0;
    assert(slices == s1 + s2);
    lemma_eval_sound(left, env, state, seq![false]);
    lemma_eval_sound(right, env, state, seq![true]);
    lemma_descend_sound(left, r, c, env, state, seq![false], nr);
    lemma_descend_sound(right, l, c.flipped(), env, state, seq![true], nl);
    lemma_holds_of(c, nl, nr);
    assert forall|i: int| 0 <= i < slices.len() implies slice_sound(
        #[trigger] slices[i],
        state,
        holds_of(c, nl, nr),
    ) by {
        if i < s1.len() {
            assert(slices[i] == s1[i]);
        } else {
            assert(slices[i] == s2[i - s1.len()]);
        }
    }
}

} // verus!
