//! The analysis proper: the value of an expression as an interval set, the
//! slices that a comparison cuts out of the variables it mentions, and the
//! walk over the control-flow graph up to its fixed point.

use vstd::prelude::*;
use crate::bounded_value::BoundedValue;
use crate::environment::{duplicate_env, env_le, join_env, narrow_env, same_env};
use crate::fixed_point::{
    analysis,
    entered,
    hist_view,
    hist_wf,
    history_le,
    left_behind,
    lemma_env_le_refl,
    lemma_history_le_refl,
    lemma_history_le_trans,
    publish,
    settled,
    transfer,
    transfer_node,
    visit,
    visit_edges,
    History,
    State,
};
use crate::numerical_value::{
    hull_of,
    intersection_of,
    single,
    Inclusivity,
    MaxPair,
    MinPair,
    NumericalValue,
    Range,
};
use crate::parse::{Expression, Graph};
use crate::table::Table;

verus! {

/// An extended 64-bit integer.
pub type Scalar = BoundedValue<i64>;

/// A range of extended 64-bit integers.
pub type Interval = Range<BoundedValue<i64>>;

/// An interval set of extended 64-bit integers.
pub type Value = NumericalValue<BoundedValue<i64>>;

/// What the analysis knows of the variables: an interval set by name.
pub type Env = Map<Seq<char>, Seq<Interval>>;

/// Why an analysis stops without a result.
#[derive(Debug, Clone, Copy, PartialEq, Eq, Structural)]
pub enum AnalysisError {
    /// An operator of the program is not one that the analysis knows.
    UnsupportedOperator,
    /// An operation on two ranges has no result, such as a division by the
    /// range of zero alone.
    UndefinedArithmetic,
    /// An operand has the empty interval set as its value, so it has no
    /// hull to compute with.
    EmptyOperand,
    /// The graph has no statement or no list of edges for a node that the
    /// walk has reached.
    UnknownNode,
    /// The walk has gone deeper than the limit it was given.
    DepthExceeded,
}

/// An operator between two expressions.
#[derive(Debug, Clone, Copy, PartialEq, Eq, Structural)]
pub enum BinaryOperator {
    Add,
    Subtract,
    Multiply,
    Divide,
    Remainder,
}

/// The operator between the two sides of a comparison.
#[derive(Debug, Clone, Copy, PartialEq, Eq, Structural)]
pub enum ComparisonOperator {
    Less,
    LessEqual,
    Greater,
    GreaterEqual,
    Equals,
    NotEquals,
}

/// The finding that a comparison at `location` always holds, or never.
#[derive(Debug, PartialEq, Eq)]
pub struct Diagnostic {
    pub location: String,
    pub always_true: bool,
}

/// What a comparison says of one variable: the range it lies in where the
/// comparison holds, and the range it lies in where the comparison fails.
#[derive(Debug, PartialEq, Eq)]
pub struct VariableValueSlice<T> {
    pub name: String,
    pub pass: Range<T>,
    pub fail: Range<T>,
}

/// A slice with its name as a sequence of characters.
pub ghost struct SliceView {
    pub name: Seq<char>,
    pub pass: Interval,
    pub fail: Interval,
}

impl View for VariableValueSlice<BoundedValue<i64>> {
    type V = SliceView;

    open spec fn view(&self) -> SliceView {
        SliceView { name: self.name@, pass: self.pass, fail: self.fail }
    }
}

impl View for Diagnostic {
    type V = (Seq<char>, bool);

    open spec fn view(&self) -> (Seq<char>, bool) {
        (self.location@, self.always_true)
    }
}

impl Diagnostic {
    /// The finding in words.
    pub open spec fn message_text(self) -> Seq<char> {
        if self.always_true {
            "Expression is always true"@
        } else {
            "Expression is always false"@
        }
    }

    /// The finding in words.
    pub fn message(&self) -> (r: String)
        ensures
            r@ == self.message_text(),
    {
        if self.always_true {
            "Expression is always true".to_owned()
        } else {
            "Expression is always false".to_owned()
        }
    }
}

/// The operator that a text names, if it names one of `+ - * / %`.
pub open spec fn binary_operator(op: Seq<char>) -> Option<BinaryOperator> {
    if op == seq!['+'] {
        Some(BinaryOperator::Add)
    } else if op == seq!['-'] {
        Some(BinaryOperator::Subtract)
    } else if op == seq!['*'] {
        Some(BinaryOperator::Multiply)
    } else if op == seq!['/'] {
        Some(BinaryOperator::Divide)
    } else if op == seq!['%'] {
        Some(BinaryOperator::Remainder)
    } else {
        None
    }
}

/// The comparison that a text names, if it names one of
/// `< <= > >= == !=`.
pub open spec fn comparison_operator(op: Seq<char>) -> Option<ComparisonOperator> {
    if op == seq!['<'] {
        Some(ComparisonOperator::Less)
    } else if op == seq!['<', '='] {
        Some(ComparisonOperator::LessEqual)
    } else if op == seq!['>'] {
        Some(ComparisonOperator::Greater)
    } else if op == seq!['>', '='] {
        Some(ComparisonOperator::GreaterEqual)
    } else if op == seq!['=', '='] {
        Some(ComparisonOperator::Equals)
    } else if op == seq!['!', '='] {
        Some(ComparisonOperator::NotEquals)
    } else {
        None
    }
}

/// The operator that `op` names, see `binary_operator`.
pub fn parse_binary_operator(op: &str) -> (r: Option<BinaryOperator>)
    ensures
        r == binary_operator(op@),
{
    if op.unicode_len() != 1 {
        return None;
    }
    let c = op.get_char(0);
    assert(op@ =~= seq![c]);
    if c == '+' {
        Some(BinaryOperator::Add)
    } else if c == '-' {
        Some(BinaryOperator::Subtract)
    } else if c == '*' {
        Some(BinaryOperator::Multiply)
    } else if c == '/' {
        Some(BinaryOperator::Divide)
    } else if c == '%' {
        Some(BinaryOperator::Remainder)
    } else {
        proof {
            assert(seq!['+'][0] == '+');
            assert(seq!['-'][0] == '-');
            assert(seq!['*'][0] == '*');
            assert(seq!['/'][0] == '/');
            assert(seq!['%'][0] == '%');
        }
        None
    }
}

/// The comparison that `op` names, see `comparison_operator`.
pub fn parse_comparison_operator(op: &str) -> (r: Option<ComparisonOperator>)
    ensures
        r == comparison_operator(op@),
{
    let n = op.unicode_len();
    if n == 1 {
        let c = op.get_char(0);
        assert(op@ =~= seq![c]);
        if c == '<' {
            Some(ComparisonOperator::Less)
        } else if c == '>' {
            Some(ComparisonOperator::Greater)
        } else {
            proof {
                assert(seq!['<'][0] == '<');
                assert(seq!['>'][0] == '>');
            }
            None
        }
    } else if n == 2 {
        let c = op.get_char(0);
        let d = op.get_char(1);
        assert(op@ =~= seq![c, d]);
        if d != '=' {
            proof {
                assert(seq!['<', '='][1] == '=');
                assert(seq!['>', '='][1] == '=');
                assert(seq!['=', '='][1] == '=');
                assert(seq!['!', '='][1] == '=');
            }
            None
        } else if c == '<' {
            Some(ComparisonOperator::LessEqual)
        } else if c == '>' {
            Some(ComparisonOperator::GreaterEqual)
        } else if c == '=' {
            Some(ComparisonOperator::Equals)
        } else if c == '!' {
            Some(ComparisonOperator::NotEquals)
        } else {
            proof {
                assert(seq!['<', '='][0] == '<');
                assert(seq!['>', '='][0] == '>');
                assert(seq!['=', '='][0] == '=');
                assert(seq!['!', '='][0] == '!');
            }
            None
        }
    } else {
        None
    }
}

impl ComparisonOperator {
    /// The comparison seen from the other side: `a < b` is `b > a`.
    pub open spec fn flipped(self) -> Self {
        match self {
            ComparisonOperator::Less => ComparisonOperator::Greater,
            ComparisonOperator::LessEqual => ComparisonOperator::GreaterEqual,
            ComparisonOperator::Greater => ComparisonOperator::Less,
            ComparisonOperator::GreaterEqual => ComparisonOperator::LessEqual,
            ComparisonOperator::Equals => ComparisonOperator::Equals,
            ComparisonOperator::NotEquals => ComparisonOperator::NotEquals,
        }
    }

    /// The comparison that holds exactly where this one fails.
    pub open spec fn negated(self) -> Self {
        match self {
            ComparisonOperator::Less => ComparisonOperator::GreaterEqual,
            ComparisonOperator::LessEqual => ComparisonOperator::Greater,
            ComparisonOperator::Greater => ComparisonOperator::LessEqual,
            ComparisonOperator::GreaterEqual => ComparisonOperator::Less,
            ComparisonOperator::Equals => ComparisonOperator::NotEquals,
            ComparisonOperator::NotEquals => ComparisonOperator::Equals,
        }
    }

    pub fn flip(self) -> (r: Self)
        ensures
            r == self.flipped(),
    {
        match self {
            ComparisonOperator::Less => ComparisonOperator::Greater,
            ComparisonOperator::LessEqual => ComparisonOperator::GreaterEqual,
            ComparisonOperator::Greater => ComparisonOperator::Less,
            ComparisonOperator::GreaterEqual => ComparisonOperator::LessEqual,
            ComparisonOperator::Equals => ComparisonOperator::Equals,
            ComparisonOperator::NotEquals => ComparisonOperator::NotEquals,
        }
    }

    pub fn not(self) -> (r: Self)
        ensures
            r == self.negated(),
    {
        match self {
            ComparisonOperator::Less => ComparisonOperator::GreaterEqual,
            ComparisonOperator::LessEqual => ComparisonOperator::Greater,
            ComparisonOperator::Greater => ComparisonOperator::LessEqual,
            ComparisonOperator::GreaterEqual => ComparisonOperator::Less,
            ComparisonOperator::Equals => ComparisonOperator::NotEquals,
            ComparisonOperator::NotEquals => ComparisonOperator::Equals,
        }
    }
}

/// Whether `op` has a result on the two ranges.
pub open spec fn apply_defined(op: BinaryOperator, l: Interval, r: Interval) -> bool {
    match op {
        BinaryOperator::Add => l.sum_defined(r),
        BinaryOperator::Subtract => l.difference_defined(r),
        BinaryOperator::Multiply => l.product_defined(r),
        BinaryOperator::Divide => l.quotient_defined(r),
        BinaryOperator::Remainder => true,
    }
}

/// The result of `op` on the two ranges.
pub open spec fn apply(op: BinaryOperator, l: Interval, r: Interval) -> Interval {
    match op {
        BinaryOperator::Add => l.sum(r),
        BinaryOperator::Subtract => l.difference(r),
        BinaryOperator::Multiply => l.product(r),
        BinaryOperator::Divide => l.quotient(r),
        BinaryOperator::Remainder => l.remainder(r),
    }
}

/// The result of `op` on the two ranges, where it has one.
#[verifier::opaque]
pub open spec fn checked_apply(op: BinaryOperator, l: Interval, r: Interval) -> Option<Interval> {
    if apply_defined(op, l, r) {
        Some(apply(op, l, r))
    } else {
        None
    }
}

/// The result of `op` on the two ranges, where it has one.
pub fn apply_operator(op: BinaryOperator, l: Interval, r: Interval) -> (out: Option<Interval>)
    ensures
        out == checked_apply(op, l, r),
{
    reveal(checked_apply);
    match op {
        BinaryOperator::Add => if l.can_add(&r) {
            Some(l + r)
        } else {
            None
        },
        BinaryOperator::Subtract => if l.can_sub(&r) {
            Some(l - r)
        } else {
            None
        },
        BinaryOperator::Multiply => if l.can_mul(&r) {
            Some(l * r)
        } else {
            None
        },
        BinaryOperator::Divide => if l.can_div(&r) {
            Some(l / r)
        } else {
            None
        },
        BinaryOperator::Remainder => Some(l % r),
    }
}

/// The range of all extended integers.
pub open spec fn universe_range() -> Interval {
    Range::new_spec(
        BoundedValue::Min,
        Inclusivity::Inclusive,
        BoundedValue::Max,
        Inclusivity::Inclusive,
    )
}

/// The interval set of all extended integers.
pub open spec fn universe_seq() -> Seq<Interval> {
    seq![universe_range()]
}

/// The interval set of all extended integers.
pub fn universe_value() -> (r: Value)
    ensures
        r.wf(),
        r@ == universe_seq(),
{
    let r = NumericalValue::from_range(
        Range::new(
            BoundedValue::Min,
            Inclusivity::Inclusive,
            BoundedValue::Max,
            Inclusivity::Inclusive,
        ),
    );
    assert(r@ =~= universe_seq());
    r
}

/// What the variables hold as a map from names to interval sets.
pub open spec fn env_view(t: Table<Value>) -> Env {
    Map::new(|k: Seq<char>| t.contains(k), |k: Seq<char>| t.at(k)@)
}

/// The invariant of a table of variables: the table is well-formed and so
/// is each of its interval sets.
pub open spec fn env_wf(t: Table<Value>) -> bool {
    &&& t.wf()
    &&& forall|i: int| 0 <= i < t.items().len() ==> (#[trigger] t.items()[i]).wf()
}

/// The value of the variable `name`: what the map holds for it, and all
/// extended integers where the map does not hold it.
pub open spec fn lookup(env: Env, name: Seq<char>) -> Seq<Interval> {
    if env.contains_key(name) {
        env[name]
    } else {
        universe_seq()
    }
}

/// The range that holds the integer `n` and nothing else.
pub open spec fn number_range(n: i64) -> Interval {
    Range::new_spec(
        BoundedValue::Raw(n),
        Inclusivity::Inclusive,
        BoundedValue::Raw(n),
        Inclusivity::Inclusive,
    )
}

/// The range of an expression, which is what the analysis computes with.
///
/// A number has the range of itself alone, a variable the hull of what the
/// map holds for it, an unknown expression the range of all extended
/// integers. The range of an operation is the result of the operator on the
/// ranges of its two sides.
pub open spec fn eval_hull(expr: Expression, env: Env) -> Result<Interval, AnalysisError>
    decreases expr,
{
    match expr {
        Expression::Number(n) => Ok(number_range(n)),
        Expression::Identifier(name) => match hull_of(lookup(env, name@)) {
            None => Err(AnalysisError::EmptyOperand),
            Some(h) => Ok(h),
        },
        Expression::Other => Ok(universe_range()),
        Expression::Binary { left, op, right } => match eval_hull(*left, env) {
            Err(e) => Err(e),
            Ok(l) => match eval_hull(*right, env) {
                Err(e) => Err(e),
                Ok(r) => match binary_operator(op@) {
                    None => Err(AnalysisError::UnsupportedOperator),
                    Some(o) => match checked_apply(o, l, r) {
                        None => Err(AnalysisError::UndefinedArithmetic),
                        Some(range) => Ok(range),
                    },
                },
            },
        },
    }
}

/// The value of an expression, which is what a variable gets that the
/// expression is assigned to.
///
/// A variable has what the map holds for it, with its gaps. Any other
/// expression has its range as its value; a range that holds nothing gives
/// the empty set.
pub open spec fn eval(expr: Expression, env: Env) -> Result<Seq<Interval>, AnalysisError> {
    match expr {
        Expression::Identifier(name) => Ok(lookup(env, name@)),
        _ => match eval_hull(expr, env) {
            Err(e) => Err(e),
            Ok(range) => Ok(single(range)),
        },
    }
}

/// What the table holds for the variable `name`, see `lookup`.
pub fn lookup_value(variables: &Table<Value>, name: &String) -> (r: Value)
    requires
        env_wf(*variables),
    ensures
        r.wf(),
        r@ == lookup(env_view(*variables), name@),
{
    match variables.find(name) {
        Some(i) => {
            let v = variables.item_at(i);
            proof {
                variables.lemma_index(i as int);
            }
            v.duplicate()
        },
        None => universe_value(),
    }
}

/// The value of an expression, see `eval`.
pub fn parse_value_expression(node: &Expression, variables: &Table<Value>) -> (r: Result<
    Value,
    AnalysisError,
>)
    requires
        env_wf(*variables),
    ensures
        match r {
            Ok(v) => v.wf() && eval(*node, env_view(*variables)) == Ok::<
                Seq<Interval>,
                AnalysisError,
            >(v@),
            Err(e) => eval(*node, env_view(*variables)) == Err::<Seq<Interval>, AnalysisError>(e),
        },
{
    match node {
        Expression::Identifier(var) => Ok(lookup_value(variables, var)),
        _ => match hull_of_expression(node, variables) {
            Err(e) => Err(e),
            Ok(range) => Ok(NumericalValue::from_range(range)),
        },
    }
}

/// The range of an expression, see `eval_hull`.
pub fn hull_of_expression(node: &Expression, variables: &Table<Value>) -> (r: Result<
    Interval,
    AnalysisError,
>)
    requires
        env_wf(*variables),
    ensures
        r == eval_hull(*node, env_view(*variables)),
    decreases node,
{
    match node {
        Expression::Binary { left, op, right } => {
            let l = match hull_of_expression(left, variables) {
                Ok(l) => l,
                Err(e) => {
                    return Err(e);
                },
            };
            let r = match hull_of_expression(right, variables) {
                Ok(r) => r,
                Err(e) => {
                    return Err(e);
                },
            };
            let o = match parse_binary_operator(op.as_str()) {
                Some(o) => o,
                None => {
                    return Err(AnalysisError::UnsupportedOperator);
                },
            };
            match apply_operator(o, l, r) {
                Some(range) => Ok(range),
                None => Err(AnalysisError::UndefinedArithmetic),
            }
        },
        Expression::Number(num) => Ok(Range::of(BoundedValue::Raw(*num))),
        Expression::Identifier(var) => match lookup_value(variables, var).range() {
            None => Err(AnalysisError::EmptyOperand),
            Some(h) => Ok(h),
        },
        Expression::Other => Ok(
            Range::new(
                BoundedValue::Min,
                Inclusivity::Inclusive,
                BoundedValue::Max,
                Inclusivity::Inclusive,
            ),
        ),
    }
}

/// The upper endpoint of what lies strictly below the upper end of
/// `target`: exclusive at the upper value, or one step below it where the
/// upper end is exclusive already.
pub open spec fn strict_upper(target: Interval) -> MaxPair<Scalar> {
    MaxPair {
        value: if target.max.inclusivity == Inclusivity::Inclusive {
            target.max.value
        } else {
            target.max.value.sum(BoundedValue::Raw(-1i64))
        },
        inclusivity: Inclusivity::Exclusive,
    }
}

/// The lower endpoint of what lies strictly above the lower end of
/// `target`: exclusive at the lower value, or one step above it where the
/// lower end is exclusive already.
pub open spec fn strict_lower(target: Interval) -> MinPair<Scalar> {
    MinPair {
        value: if target.min.inclusivity == Inclusivity::Inclusive {
            target.min.value
        } else {
            target.min.value.sum(BoundedValue::Raw(1i64))
        },
        inclusivity: Inclusivity::Exclusive,
    }
}

/// The range in which a variable lies where it compares by `op` to a value
/// in `target`.
pub open spec fn pass_range(target: Interval, op: ComparisonOperator) -> Interval {
    let lowest = MinPair { value: BoundedValue::Min, inclusivity: Inclusivity::Inclusive };
    let highest = MaxPair { value: BoundedValue::Max, inclusivity: Inclusivity::Inclusive };
    match op {
        ComparisonOperator::Less => Range { min: lowest, max: strict_upper(target) },
        ComparisonOperator::LessEqual => Range { min: lowest, max: target.max },
        ComparisonOperator::Greater => Range { min: strict_lower(target), max: highest },
        ComparisonOperator::GreaterEqual => Range { min: target.min, max: highest },
        ComparisonOperator::Equals => target,
        ComparisonOperator::NotEquals => universe_range(),
    }
}

/// The range in which a variable lies where it does not compare by `op` to
/// a value in `target`: the range in which the negated comparison holds.
pub open spec fn fail_range(target: Interval, op: ComparisonOperator) -> Interval {
    pass_range(target, op.negated())
}

/// The slice of one occurrence of a variable: its value cut down to the
/// pass range and to the fail range, each taken by its hull. Where either
/// cut is empty there is no slice.
#[verifier::opaque]
pub open spec fn slice_of(
    name: Seq<char>,
    value: Seq<Interval>,
    target: Interval,
    op: ComparisonOperator,
) -> Seq<SliceView> {
    match (
        hull_of(intersection_of(value, single(pass_range(target, op)))),
        hull_of(intersection_of(value, single(fail_range(target, op)))),
    ) {
        (Some(pass), Some(fail)) => seq![SliceView { name, pass, fail }],
        _ => Seq::empty(),
    }
}

/// What the left side of an operation is compared to, given what the whole
/// operation is compared to: the operation is undone by the hull `r` of the
/// right side. A remainder says nothing of its left side.
#[verifier::opaque]
pub open spec fn left_target(b: BinaryOperator, target: Interval, r: Interval) -> Option<
    Interval,
> {
    match b {
        BinaryOperator::Add => checked_apply(BinaryOperator::Subtract, target, r),
        BinaryOperator::Subtract => checked_apply(BinaryOperator::Add, target, r),
        BinaryOperator::Multiply => checked_apply(BinaryOperator::Divide, target, r),
        BinaryOperator::Divide => checked_apply(BinaryOperator::Multiply, target, r),
        BinaryOperator::Remainder => None,
    }
}

/// What the right side of an operation is compared to, given what the
/// whole operation is compared to and the hull `l` of the left side.
#[verifier::opaque]
pub open spec fn right_target(b: BinaryOperator, target: Interval, l: Interval) -> Option<
    Interval,
> {
    match b {
        BinaryOperator::Add => checked_apply(BinaryOperator::Subtract, target, l),
        BinaryOperator::Subtract => checked_apply(BinaryOperator::Subtract, l, target),
        BinaryOperator::Multiply => checked_apply(BinaryOperator::Divide, target, l),
        BinaryOperator::Divide => checked_apply(BinaryOperator::Divide, l, target),
        BinaryOperator::Remainder => Some(target),
    }
}

/// The comparison that holds of the right side of an operation: the other
/// way round under a subtraction or a division, where the right side
/// counts against the result.
pub open spec fn right_operator(b: BinaryOperator, op: ComparisonOperator) -> ComparisonOperator {
    match b {
        BinaryOperator::Subtract => op.flipped(),
        BinaryOperator::Divide => op.flipped(),
        _ => op,
    }
}

/// The slices of the variables in `expr`, where `expr` compares by `op` to
/// a value in `target`.
///
/// A variable gives the slice of its value. An operation hands the
/// comparison down to its two sides, the left side first, each against the
/// target with the operation undone. Numbers and unknown expressions give
/// nothing.
pub open spec fn descend_spec(
    expr: Expression,
    target: Interval,
    op: ComparisonOperator,
    env: Env,
) -> Result<Seq<SliceView>, AnalysisError>
    decreases expr,
{
    match expr {
        Expression::Identifier(name) => Ok(slice_of(name@, lookup(env, name@), target, op)),
        Expression::Binary { left, op: operator, right } => match eval_hull(*left, env) {
            Err(e) => Err(e),
            Ok(l) => match eval_hull(*right, env) {
                Err(e) => Err(e),
                Ok(r) => match binary_operator(operator@) {
                    None => Err(AnalysisError::UnsupportedOperator),
                    Some(b) => {
                        let first = if b == BinaryOperator::Remainder {
                            Ok(Seq::empty())
                        } else {
                            match left_target(b, target, r) {
                                None => Err(AnalysisError::UndefinedArithmetic),
                                Some(t) => descend_spec(*left, t, op, env),
                            }
                        };
                        match first {
                            Err(e) => Err(e),
                            Ok(s1) => match right_target(b, target, l) {
                                None => Err(AnalysisError::UndefinedArithmetic),
                                Some(t) => match descend_spec(
                                    *right,
                                    t,
                                    right_operator(b, op),
                                    env,
                                ) {
                                    Err(e) => Err(e),
                                    Ok(s2) => Ok(s1 + s2),
                                },
                            },
                        }
                    },
                },
            },
        },
        Expression::Number(_) => Ok(Seq::empty()),
        Expression::Other => Ok(Seq::empty()),
    }
}

/// The slices of a vector with their names as sequences of characters.
pub open spec fn slice_views(s: Seq<VariableValueSlice<Scalar>>) -> Seq<SliceView> {
    Seq::new(s.len(), |i: int| s[i]@)
}

/// The pass range, see `pass_range`.
pub fn pass_range_of(target: Interval, op: ComparisonOperator) -> (r: Interval)
    ensures
        r == pass_range(target, op),
{
    match op {
        ComparisonOperator::Less => {
            let value = if matches!(target.max.inclusivity, Inclusivity::Inclusive) {
                target.max.value
            } else {
                target.max.value + BoundedValue::Raw(-1i64)
            };
            Range::new(BoundedValue::Min, Inclusivity::Inclusive, value, Inclusivity::Exclusive)
        },
        ComparisonOperator::LessEqual => Range::new(
            BoundedValue::Min,
            Inclusivity::Inclusive,
            target.max.value,
            target.max.inclusivity,
        ),
        ComparisonOperator::Greater => {
            let value = if matches!(target.min.inclusivity, Inclusivity::Inclusive) {
                target.min.value
            } else {
                target.min.value + BoundedValue::Raw(1i64)
            };
            Range::new(value, Inclusivity::Exclusive, BoundedValue::Max, Inclusivity::Inclusive)
        },
        ComparisonOperator::GreaterEqual => Range::new(
            target.min.value,
            target.min.inclusivity,
            BoundedValue::Max,
            Inclusivity::Inclusive,
        ),
        ComparisonOperator::Equals => target,
        ComparisonOperator::NotEquals => Range::new(
            BoundedValue::Min,
            Inclusivity::Inclusive,
            BoundedValue::Max,
            Inclusivity::Inclusive,
        ),
    }
}

/// Appends the slice of one occurrence of the variable `name`, see
/// `slice_of`.
pub fn push_slice(
    name: &String,
    value: &Value,
    target: Interval,
    op: ComparisonOperator,
    slices: &mut Vec<VariableValueSlice<Scalar>>,
)
    requires
        value.wf(),
    ensures
        slice_views(final(slices)@) == slice_views(old(slices)@) + slice_of(
            name@,
            value@,
            target,
            op,
        ),
{
    reveal(slice_of);
    let pr = pass_range_of(target, op);
    let fr = pass_range_of(target, op.not());
    match (value.intersect_range(&pr).range(), value.intersect_range(&fr).range()) {
        (Some(pass), Some(fail)) => {
            slices.push(VariableValueSlice { name: name.clone(), pass, fail });
            assert(slice_views(slices@) =~= slice_views(old(slices)@) + slice_of(
                name@,
                value@,
                target,
                op,
            ));
        },
        _ => {
            assert(slice_views(slices@) =~= slice_views(old(slices)@) + slice_of(
                name@,
                value@,
                target,
                op,
            ));
        },
    }
}

/// What the left side of an operation is compared to, see `left_target`.
pub fn target_for_left(b: BinaryOperator, target: Interval, r: Interval) -> (out: Option<Interval>)
    ensures
        out == left_target(b, target, r),
{
    reveal(left_target);
    match b {
        BinaryOperator::Add => apply_operator(BinaryOperator::Subtract, target, r),
        BinaryOperator::Subtract => apply_operator(BinaryOperator::Add, target, r),
        BinaryOperator::Multiply => apply_operator(BinaryOperator::Divide, target, r),
        BinaryOperator::Divide => apply_operator(BinaryOperator::Multiply, target, r),
        BinaryOperator::Remainder => None,
    }
}

/// What the right side of an operation is compared to, see `right_target`.
pub fn target_for_right(b: BinaryOperator, target: Interval, l: Interval) -> (out: Option<
    Interval,
>)
    ensures
        out == right_target(b, target, l),
{
    reveal(right_target);
    match b {
        BinaryOperator::Add => apply_operator(BinaryOperator::Subtract, target, l),
        BinaryOperator::Subtract => apply_operator(BinaryOperator::Subtract, l, target),
        BinaryOperator::Multiply => apply_operator(BinaryOperator::Divide, target, l),
        BinaryOperator::Divide => apply_operator(BinaryOperator::Divide, l, target),
        BinaryOperator::Remainder => {
            reveal(checked_apply);
            Some(target)
        },
    }
}

/// The comparison that holds of the right side of an operation, see
/// `right_operator`.
pub fn operator_for_right(b: BinaryOperator, op: ComparisonOperator) -> (r: ComparisonOperator)
    ensures
        r == right_operator(b, op),
{
    match b {
        BinaryOperator::Subtract => op.flip(),
        BinaryOperator::Divide => op.flip(),
        _ => op,
    }
}

/// Appends the slices of the variables in `node`, see `descend_spec`.
pub fn descend(
    node: &Expression,
    range: Interval,
    cmp_op: ComparisonOperator,
    variables: &Table<Value>,
    slices: &mut Vec<VariableValueSlice<Scalar>>,
) -> (r: Result<(), AnalysisError>)
    requires
        env_wf(*variables),
    ensures
        match r {
            Ok(_) => descend_spec(*node, range, cmp_op, env_view(*variables)) matches Ok(s)
                && slice_views(final(slices)@) == slice_views(old(slices)@) + s,
            Err(e) => descend_spec(*node, range, cmp_op, env_view(*variables)) == Err::<
                Seq<SliceView>,
                AnalysisError,
            >(e),
        },
    decreases node,
{
    match node {
        Expression::Identifier(name) => {
            let value = lookup_value(variables, name);
            push_slice(name, &value, range, cmp_op, slices);
            Ok(())
        },
        Expression::Binary { left, op, right } => {
            let l = match hull_of_expression(left, variables) {
                Ok(l) => l,
                Err(e) => {
                    return Err(e);
                },
            };
            let r = match hull_of_expression(right, variables) {
                Ok(r) => r,
                Err(e) => {
                    return Err(e);
                },
            };
            let b = match parse_binary_operator(op.as_str()) {
                Some(b) => b,
                None => {
                    return Err(AnalysisError::UnsupportedOperator);
                },
            };
            let ghost env = env_view(*variables);
            let ghost before = slice_views(slices@);
            let to_left = target_for_left(b, range, r);
            if !matches!(b, BinaryOperator::Remainder) {
                match to_left {
                    None => {
                        return Err(AnalysisError::UndefinedArithmetic);
                    },
                    Some(t) => {
                        match descend(left, t, cmp_op, variables, slices) {
                            Ok(_) => {},
                            Err(e) => {
                                return Err(e);
                            },
                        }
                    },
                }
            }
            let ghost middle = slice_views(slices@);
            let to_right = target_for_right(b, range, l);
            let right_op = operator_for_right(b, cmp_op);
            match to_right {
                None => Err(AnalysisError::UndefinedArithmetic),
                Some(t) => {
                    match descend(right, t, right_op, variables, slices) {
                        Ok(_) => {
                            proof {
                                let s1 = if b == BinaryOperator::Remainder {
                                    Seq::<SliceView>::empty()
                                } else {
                                    descend_spec(**left, to_left.unwrap(), cmp_op, env).unwrap()
                                };
                                let s2 = descend_spec(**right, t, right_op, env).unwrap();
                                assert(middle =~= before + s1);
                                assert(slice_views(slices@) =~= before + (s1 + s2));
                            }
                            Ok(())
                        },
                        Err(e) => Err(e),
                    }
                },
            }
        },
        Expression::Number(_) => {
            assert(slice_views(slices@) =~= slice_views(old(slices)@) + Seq::<SliceView>::empty());
            Ok(())
        },
        Expression::Other => {
            assert(slice_views(slices@) =~= slice_views(old(slices)@) + Seq::<SliceView>::empty());
            Ok(())
        },
    }
}

/// Whether the two ranges have no position in common.
pub open spec fn disjoint(l: Interval, r: Interval) -> bool {
    l.max.pos() < r.min.pos() || l.min.pos() > r.max.pos()
}

/// Whether the two ranges are one and the same single value.
pub open spec fn same_singleton(l: Interval, r: Interval) -> bool {
    l == r && l.is_singleton()
}

/// Whether a comparison by `op` of a value in `l` to a value in `r` holds
/// whatever the two values are, as far as the endpoints of the two ranges
/// tell.
pub open spec fn always_true(op: ComparisonOperator, l: Interval, r: Interval) -> bool {
    match op {
        ComparisonOperator::Less => l.max.pos() < r.min.pos(),
        ComparisonOperator::LessEqual => l.max.pos() <= r.min.pos(),
        ComparisonOperator::Greater => l.min.pos() > r.max.pos(),
        ComparisonOperator::GreaterEqual => l.min.pos() >= r.max.pos(),
        ComparisonOperator::Equals => same_singleton(l, r),
        ComparisonOperator::NotEquals => disjoint(l, r),
    }
}

/// Whether a comparison by `op` of a value in `l` to a value in `r` fails
/// whatever the two values are, as far as the endpoints of the two ranges
/// tell.
pub open spec fn always_false(op: ComparisonOperator, l: Interval, r: Interval) -> bool {
    match op {
        ComparisonOperator::Less => l.min.pos() > r.max.pos(),
        ComparisonOperator::LessEqual => l.min.pos() >= r.max.pos(),
        ComparisonOperator::Greater => l.max.pos() < r.min.pos(),
        ComparisonOperator::GreaterEqual => l.max.pos() <= r.min.pos(),
        ComparisonOperator::Equals => disjoint(l, r),
        ComparisonOperator::NotEquals => same_singleton(l, r),
    }
}

/// The verdicts on a comparison: `true` where it always holds, then
/// `false` where it always fails.
pub open spec fn verdicts(op: ComparisonOperator, l: Interval, r: Interval) -> Seq<bool> {
    (if always_true(op, l, r) {
        seq![true]
    } else {
        Seq::empty()
    }) + (if always_false(op, l, r) {
        seq![false]
    } else {
        Seq::empty()
    })
}

/// What a comparison gives: the slices of the variables on its left side,
/// then those on its right side, seen from the other side, and the
/// verdicts on the comparison.
pub open spec fn comparison_spec(left: Expression, op: Seq<char>, right: Expression, env: Env)
    -> Result<(Seq<SliceView>, Seq<bool>), AnalysisError> {
    match comparison_operator(op) {
        None => Err(AnalysisError::UnsupportedOperator),
        Some(c) => match eval_hull(left, env) {
            Err(e) => Err(e),
            Ok(l) => match eval_hull(right, env) {
                Err(e) => Err(e),
                Ok(r) => match descend_spec(left, r, c, env) {
                    Err(e) => Err(e),
                    Ok(s1) => match descend_spec(right, l, c.flipped(), env) {
                        Err(e) => Err(e),
                        Ok(s2) => Ok((s1 + s2, verdicts(c, l, r))),
                    },
                },
            },
        },
    }
}

/// The diagnostics of a vector as pairs of location and verdict.
pub open spec fn diagnostic_views(d: Seq<Diagnostic>) -> Seq<(Seq<char>, bool)> {
    Seq::new(d.len(), |i: int| d[i]@)
}

/// The verdicts given, each at `location`.
pub open spec fn located(location: Seq<char>, v: Seq<bool>) -> Seq<(Seq<char>, bool)> {
    Seq::new(v.len(), |i: int| (location, v[i]))
}

/// Whether the comparison always holds, see `always_true`.
pub fn is_always_true(op: ComparisonOperator, l: &Interval, r: &Interval) -> (out: bool)
    ensures
        out == always_true(op, *l, *r),
{
    match op {
        ComparisonOperator::Less => l.max.less_than_min(&r.min),
        ComparisonOperator::LessEqual => !r.min.less_than_max(&l.max),
        ComparisonOperator::Greater => r.max.less_than_min(&l.min),
        ComparisonOperator::GreaterEqual => !l.min.less_than_max(&r.max),
        ComparisonOperator::Equals => l.same(r) && l.singleton(),
        ComparisonOperator::NotEquals => l.max.less_than_min(&r.min) || r.max.less_than_min(
            &l.min,
        ),
    }
}

/// Whether the comparison always fails, see `always_false`.
pub fn is_always_false(op: ComparisonOperator, l: &Interval, r: &Interval) -> (out: bool)
    ensures
        out == always_false(op, *l, *r),
{
    match op {
        ComparisonOperator::Less => r.max.less_than_min(&l.min),
        ComparisonOperator::LessEqual => !l.min.less_than_max(&r.max),
        ComparisonOperator::Greater => l.max.less_than_min(&r.min),
        ComparisonOperator::GreaterEqual => !r.min.less_than_max(&l.max),
        ComparisonOperator::Equals => l.max.less_than_min(&r.min) || r.max.less_than_min(&l.min),
        ComparisonOperator::NotEquals => l.same(r) && l.singleton(),
    }
}

/// Works out a comparison: appends the slices of its variables to `slices`
/// and its verdicts, at `location`, to `diagnostics`. Where the comparison
/// cannot be worked out, both are left as they were.
pub fn handle_comparison(
    location: &str,
    left: &Expression,
    cmp_op: &str,
    right: &Expression,
    variables: &Table<Value>,
    slices: &mut Vec<VariableValueSlice<Scalar>>,
    diagnostics: &mut Vec<Diagnostic>,
) -> (r: Result<(), AnalysisError>)
    requires
        env_wf(*variables),
    ensures
        match r {
            Ok(_) => comparison_spec(*left, cmp_op@, *right, env_view(*variables)) matches Ok(found)
                && slice_views(final(slices)@) == slice_views(old(slices)@) + found.0
                && diagnostic_views(final(diagnostics)@) == diagnostic_views(old(diagnostics)@)
                + located(location@, found.1),
            Err(e) => comparison_spec(*left, cmp_op@, *right, env_view(*variables)) == Err::<
                (Seq<SliceView>, Seq<bool>),
                AnalysisError,
            >(e) && final(slices)@ == old(slices)@ && final(diagnostics)@ == old(diagnostics)@,
        },
{
    let op = match parse_comparison_operator(cmp_op) {
        Some(op) => op,
        None => {
            return Err(AnalysisError::UnsupportedOperator);
        },
    };
    let l = match hull_of_expression(left, variables) {
        Ok(l) => l,
        Err(e) => {
            return Err(e);
        },
    };
    let r = match hull_of_expression(right, variables) {
        Ok(r) => r,
        Err(e) => {
            return Err(e);
        },
    };
    let mut found: Vec<VariableValueSlice<Scalar>> = Vec::new();
    match descend(left, r, op, variables, &mut found) {
        Ok(_) => {},
        Err(e) => {
            return Err(e);
        },
    }
    let ghost s1 = slice_views(found@);
    match descend(right, l, op.flip(), variables, &mut found) {
        Ok(_) => {},
        Err(e) => {
            return Err(e);
        },
    }
    let ghost all = slice_views(found@);
    proof {
        assert(s1 =~= Seq::<SliceView>::empty() + s1);
        assert(slice_views(old(slices)@ + found@) =~= slice_views(old(slices)@) + all);
    }
    slices.append(&mut found);
    let ghost before = diagnostic_views(diagnostics@);
    let holds = is_always_true(op, &l, &r);
    let fails = is_always_false(op, &l, &r);
    if holds {
        diagnostics.push(Diagnostic { location: location.to_owned(), always_true: true });
    }
    if fails {
        diagnostics.push(Diagnostic { location: location.to_owned(), always_true: false });
    }
    proof {
        assert(diagnostic_views(diagnostics@) =~= before + located(location@, verdicts(op, l, r)));
    }
    Ok(())
}

/// How deep `analyze` lets the walk go. For every graph there is a depth
/// under which the walk comes to its end, but that depth grows with the
/// number of rounds that the loops of the program take, and each level of
/// it takes a frame of the stack.
pub const DEPTH_LIMIT: usize = 1000;

/// The state of a walk as the two tables of a run hold it.
pub open spec fn state_of(history: Table<Table<Value>>, diagnostics: Seq<Diagnostic>) -> State {
    State { history: hist_view(history), findings: diagnostic_views(diagnostics) }
}

/// Visits the node `location` with the variables given, and from there the
/// nodes that its edges lead to, no deeper than `depth` visits below this
/// one; see `visit`.
///
/// The snapshots only grow: every node that had a snapshot keeps one, and
/// the new snapshot holds for each variable at least what the old one held.
/// The variables are left as the node leaves them, see `left_behind`.
pub fn numerical_value_analysis(
    graph: &Graph,
    location: &str,
    variables: &mut Table<Value>,
    history: &mut Table<Table<Value>>,
    diagnostics: &mut Vec<Diagnostic>,
    depth: usize,
) -> (r: Result<(), AnalysisError>)
    requires
        graph.wf(),
        env_wf(*old(variables)),
        hist_wf(*old(history)),
    ensures
        r is Ok ==> visit(
            *graph,
            location@,
            env_view(*old(variables)),
            state_of(*old(history), old(diagnostics)@),
            depth as nat,
        ) == Ok::<State, AnalysisError>(state_of(*final(history), final(diagnostics)@)),
        r matches Err(e) ==> visit(
            *graph,
            location@,
            env_view(*old(variables)),
            state_of(*old(history), old(diagnostics)@),
            depth as nat,
        ) == Err::<State, AnalysisError>(e),
        r is Ok ==> hist_wf(*final(history)),
        r is Ok ==> history_le(hist_view(*old(history)), hist_view(*final(history))),
        r is Ok ==> env_wf(*final(variables)),
        r is Ok ==> env_view(*final(variables)) == left_behind(
            *graph,
            location@,
            env_view(*old(variables)),
            hist_view(*old(history)),
        ),
    decreases depth,
{
    let ghost incoming = env_view(*variables);
    let ghost h0 = hist_view(*history);
    let ghost whole =
        visit(*graph, location@, incoming, state_of(*history, diagnostics@), depth as nat);
    let key = location.to_owned();
    let node = match graph.value_of(location) {
        Some(node) => node,
        None => {
            return Err(AnalysisError::UnknownNode);
        },
    };
    match history.find(&key) {
        Some(j) => {
            proof {
                history.lemma_index(j as int);
                assert(env_wf(history.items()[j as int]));
            }
            let snapshot = history.item_at(j);
            join_env(variables, snapshot);
            if same_env(variables, snapshot) {
                proof {
                    assert(settled(h0, location@, incoming));
                    lemma_history_le_refl(h0);
                }
                return Ok(());
            }
        },
        None => {},
    }
    let ghost joined = env_view(*variables);
    proof {
        assert(joined == entered(h0, location@, incoming));
        assert(!settled(h0, location@, incoming));
    }
    if depth == 0 {
        return Err(AnalysisError::DepthExceeded);
    }
    publish(history, &key, variables);
    let ghost h1 = hist_view(*history);
    proof {
        assert(h1 == h0.insert(location@, joined));
        lemma_published(h0, location@, joined);
    }
    let mut slices: Vec<VariableValueSlice<Scalar>> = Vec::new();
    match transfer_node(location, node, variables, &mut slices, diagnostics) {
        Ok(_) => {},
        Err(e) => {
            return Err(e);
        },
    }
    let ghost step = transfer(graph.node(location@), joined).unwrap();
    let ghost f1 = diagnostic_views(diagnostics@);
    let successors = match graph.successors_of(location) {
        Some(successors) => successors,
        None => {
            return Err(AnalysisError::UnknownNode);
        },
    };
    let ghost found = slice_views(slices@);
    proof {
        assert(found =~= step.slices);
        assert(whole == visit_edges(
            *graph,
            successors@,
            0,
            step.env,
            found,
            State { history: h1, findings: f1 },
            (depth - 1) as nat,
        ));
    }
    let n = successors.len();
    let mut i: usize = 0;
    while i < n
        invariant
            graph.wf(),
            env_wf(*variables),
            hist_wf(*history),
            depth > 0,
            n == successors@.len(),
            i <= n,
            found == slice_views(slices@),
            step.env == env_view(*variables),
            step.env == left_behind(
                *graph,
                location@,
                env_view(*old(variables)),
                hist_view(*old(history)),
            ),
            history_le(h0, hist_view(*history)),
            h0 == hist_view(*old(history)),
            whole == visit(
                *graph,
                location@,
                env_view(*old(variables)),
                state_of(*old(history), old(diagnostics)@),
                depth as nat,
            ),
            whole == visit_edges(
                *graph,
                successors@,
                i as int,
                step.env,
                found,
                state_of(*history, diagnostics@),
                (depth - 1) as nat,
            ),
        decreases n - i,
    {
        let successor = &successors[i];
        let ghost before = hist_view(*history);
        let mut narrowed = duplicate_env(variables);
        narrow_env(&mut narrowed, &slices, successor.value);
        match numerical_value_analysis(
            graph,
            successor.key.as_str(),
            &mut narrowed,
            history,
            diagnostics,
            depth - 1,
        ) {
            Ok(_) => {
                proof {
                    lemma_history_le_trans(h0, before, hist_view(*history));
                }
            },
            Err(e) => {
                return Err(e);
            },
        }
        i = i + 1;
    }
    Ok(())
}

/// Snapshots grow when a node gets a snapshot that holds at least what
/// its old one held.
pub proof fn lemma_published(h: History, location: Seq<char>, joined: Env)
    requires
        h.contains_key(location) ==> env_le(h[location], joined),
    ensures
        history_le(h, h.insert(location, joined)),
{
    let after = h.insert(location, joined);
    assert forall|k: Seq<char>| #[trigger] h.contains_key(k) implies after.contains_key(k)
        && env_le(h[k], after[k]) by {
        if k != location {
            lemma_env_le_refl(h[k]);
        }
    }
}

/// The findings of the walk from the first node of the graph, no deeper
/// than `depth` visits below the first; see `analysis`.
pub fn analyze_within(graph: &Graph, depth: usize) -> (r: Result<Vec<Diagnostic>, AnalysisError>)
    requires
        graph.wf(),
    ensures
        match r {
            Ok(found) => analysis(*graph, depth as nat) == Ok::<
                Seq<(Seq<char>, bool)>,
                AnalysisError,
            >(diagnostic_views(found@)),
            Err(e) => analysis(*graph, depth as nat) == Err::<Seq<(Seq<char>, bool)>,
                AnalysisError>(
                e,
            ),
        },
{
    let mut diagnostics: Vec<Diagnostic> = Vec::new();
    let mut variables: Table<Value> = Table::new();
    let mut history: Table<Table<Value>> = Table::new();
    proof {
        assert(env_view(variables) =~= Map::<Seq<char>, Seq<Interval>>::empty());
        assert(hist_view(history) =~= Map::<Seq<char>, Env>::empty());
        assert(diagnostic_views(diagnostics@) =~= Seq::<(Seq<char>, bool)>::empty());
    }
    match numerical_value_analysis(
        graph,
        graph.first().as_str(),
        &mut variables,
        &mut history,
        &mut diagnostics,
        depth,
    ) {
        Ok(_) => Ok(diagnostics),
        Err(e) => Err(e),
    }
}

/// The findings of the walk from the first node of the graph, no deeper
/// than `DEPTH_LIMIT`. Every visit that goes on to the edges of its node
/// takes a frame of the stack until the walk below it is done, and the limit
/// keeps a long loop of the program from using the stack up.
pub fn analyze(graph: &Graph) -> (r: Result<Vec<Diagnostic>, AnalysisError>)
    requires
        graph.wf(),
    ensures
        match r {
            Ok(found) => analysis(*graph, DEPTH_LIMIT as nat) == Ok::<
                Seq<(Seq<char>, bool)>,
                AnalysisError,
            >(diagnostic_views(found@)),
            Err(e) => analysis(*graph, DEPTH_LIMIT as nat) == Err::<
                Seq<(Seq<char>, bool)>,
                AnalysisError,
            >(e),
        },
{
    analyze_within(graph, DEPTH_LIMIT)
}

} // verus!
