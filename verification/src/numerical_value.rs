//! Endpoints, ranges and interval sets over an ordered scalar.
//!
//! Every scalar has an integer rank. An endpoint is placed on an axis with
//! three positions for each rank: `3 * rank` is the value itself, and the
//! two positions between one value and the next are the gap between them,
//! first the part that belongs to the lower value, then the part that
//! belongs to the upper one. A lower endpoint that is exclusive starts one
//! position above its value, an upper endpoint that is exclusive ends one
//! position below it. A range is then the set of positions from its lower to
//! its upper position, an interval set is a set of positions, and endpoints
//! compare as their positions do: by value first, and at equal values by
//! what they leave out.

use vstd::prelude::*;
use vstd::std_specs::convert::FromSpecImpl;
use crate::interval_laws::lemma_ordered_unique;
use vstd::string::StringExecFns;
use crate::text::{decimal, decimal_text, push_char};

verus! {

/// Whether an endpoint belongs to its range.
#[derive(PartialEq, Eq, Clone, Copy, Debug, Structural)]
pub enum Inclusivity {
    Inclusive,
    Exclusive,
}

impl Inclusivity {
    /// The other inclusivity.
    pub open spec fn flipped(self) -> Inclusivity {
        match self {
            Inclusivity::Inclusive => Inclusivity::Exclusive,
            Inclusivity::Exclusive => Inclusivity::Inclusive,
        }
    }

    pub fn flip(&self) -> (r: Inclusivity)
        ensures
            r == self.flipped(),
    {
        match self {
            Inclusivity::Inclusive => Inclusivity::Exclusive,
            Inclusivity::Exclusive => Inclusivity::Inclusive,
        }
    }
}

/// A totally ordered scalar with a least and a greatest value.
///
/// The order is given by `rank`: two values compare as their ranks do, and
/// no two values share a rank.
pub trait MinMax: Sized + Copy {
    /// The integer by which the value is ordered.
    spec fn rank(self) -> int;

    /// The rank of the least value.
    spec fn lowest() -> int;

    /// The rank of the greatest value.
    spec fn highest() -> int;

    /// The characters that `to_text` writes for the value.
    spec fn text(self) -> Seq<char>;

    proof fn bounds_ordered()
        ensures
            Self::lowest() <= Self::highest(),
    ;

    proof fn rank_in_bounds(self)
        ensures
            Self::lowest() <= self.rank() <= Self::highest(),
    ;

    proof fn rank_injective(self, other: Self)
        requires
            self.rank() == other.rank(),
        ensures
            self == other,
    ;

    fn min_value() -> (r: Self)
        ensures
            r.rank() == Self::lowest(),
    ;

    fn max_value() -> (r: Self)
        ensures
            r.rank() == Self::highest(),
    ;

    fn less_than(&self, other: &Self) -> (r: bool)
        ensures
            r == (self.rank() < other.rank()),
    ;

    fn same(&self, other: &Self) -> (r: bool)
        ensures
            r == (self.rank() == other.rank()),
    ;

    fn to_text(&self) -> (r: String)
        ensures
            r@ == self.text(),
    ;
}

impl MinMax for i32 {
    open spec fn rank(self) -> int {
        self as int
    }

    open spec fn lowest() -> int {
        i32::MIN as int
    }

    open spec fn highest() -> int {
        i32::MAX as int
    }

    open spec fn text(self) -> Seq<char> {
        decimal(self as int)
    }

    proof fn bounds_ordered() {
    }

    proof fn rank_in_bounds(self) {
    }

    proof fn rank_injective(self, other: Self) {
    }

    fn min_value() -> (r: Self) {
        i32::MIN
    }

    fn max_value() -> (r: Self) {
        i32::MAX
    }

    fn less_than(&self, other: &Self) -> (r: bool) {
        *self < *other
    }

    fn same(&self, other: &Self) -> (r: bool) {
        *self == *other
    }

    fn to_text(&self) -> (r: String) {
        decimal_text(*self as i64)
    }
}

impl MinMax for i64 {
    open spec fn rank(self) -> int {
        self as int
    }

    open spec fn lowest() -> int {
        i64::MIN as int
    }

    open spec fn highest() -> int {
        i64::MAX as int
    }

    open spec fn text(self) -> Seq<char> {
        decimal(self as int)
    }

    proof fn bounds_ordered() {
    }

    proof fn rank_in_bounds(self) {
    }

    proof fn rank_injective(self, other: Self) {
    }

    fn min_value() -> (r: Self) {
        i64::MIN
    }

    fn max_value() -> (r: Self) {
        i64::MAX
    }

    fn less_than(&self, other: &Self) -> (r: bool) {
        *self < *other
    }

    fn same(&self, other: &Self) -> (r: bool) {
        *self == *other
    }

    fn to_text(&self) -> (r: String) {
        decimal_text(*self)
    }
}

/// A lower endpoint: a value and whether the range holds it.
#[derive(PartialEq, Eq, Clone, Copy, Debug)]
pub struct MinPair<T> {
    pub value: T,
    pub inclusivity: Inclusivity,
}

/// An upper endpoint: a value and whether the range holds it.
#[derive(PartialEq, Eq, Clone, Copy, Debug)]
pub struct MaxPair<T> {
    pub value: T,
    pub inclusivity: Inclusivity,
}

/// A range between a lower and an upper endpoint.
#[derive(PartialEq, Eq, Clone, Copy, Debug)]
pub struct Range<T> {
    pub min: MinPair<T>,
    pub max: MaxPair<T>,
}

impl<T: MinMax> MinPair<T> {
    /// The first position that a range with this lower endpoint holds.
    pub open spec fn pos(self) -> int {
        match self.inclusivity {
            Inclusivity::Inclusive => 3 * self.value.rank(),
            Inclusivity::Exclusive => 3 * self.value.rank() + 1,
        }
    }

    /// Whether this lower endpoint lies strictly below `other`. At equal
    /// values an inclusive lower endpoint is below an exclusive one.
    pub fn less_than(&self, other: &MinPair<T>) -> (r: bool)
        ensures
            r == (self.pos() < other.pos()),
    {
        if self.value.less_than(&other.value) {
            true
        } else if self.value.same(&other.value) {
            matches!(self.inclusivity, Inclusivity::Inclusive) && matches!(
                other.inclusivity,
                Inclusivity::Exclusive
            )
        } else {
            false
        }
    }

    /// Whether this lower endpoint lies at or below the upper endpoint
    /// `other`. At equal values that holds only where both are inclusive.
    pub fn at_most_max(&self, other: &MaxPair<T>) -> (r: bool)
        ensures
            r == (self.pos() <= other.pos()),
    {
        if self.value.less_than(&other.value) {
            true
        } else if self.value.same(&other.value) {
            matches!(self.inclusivity, Inclusivity::Inclusive) && matches!(
                other.inclusivity,
                Inclusivity::Inclusive
            )
        } else {
            false
        }
    }

    /// Whether this lower endpoint lies strictly below the upper endpoint
    /// `other`, which at equal values it never does.
    pub fn less_than_max(&self, other: &MaxPair<T>) -> (r: bool)
        ensures
            r == (self.pos() < other.pos()),
    {
        self.value.less_than(&other.value)
    }

    /// Whether the two lower endpoints are the same.
    pub fn same(&self, other: &MinPair<T>) -> (r: bool)
        ensures
            r == (self.pos() == other.pos()),
            r == (*self == *other),
    {
        proof {
            if self.value.rank() == other.value.rank() {
                self.value.rank_injective(other.value);
            }
        }
        self.value.same(&other.value) && self.inclusivity == other.inclusivity
    }
}

impl<T: MinMax> MaxPair<T> {
    /// The last position that a range with this upper endpoint holds.
    pub open spec fn pos(self) -> int {
        match self.inclusivity {
            Inclusivity::Inclusive => 3 * self.value.rank(),
            Inclusivity::Exclusive => 3 * self.value.rank() - 1,
        }
    }

    /// Whether this upper endpoint lies strictly below `other`. At equal
    /// values an exclusive upper endpoint is below an inclusive one.
    pub fn less_than(&self, other: &MaxPair<T>) -> (r: bool)
        ensures
            r == (self.pos() < other.pos()),
    {
        if self.value.less_than(&other.value) {
            true
        } else if self.value.same(&other.value) {
            matches!(self.inclusivity, Inclusivity::Exclusive) && matches!(
                other.inclusivity,
                Inclusivity::Inclusive
            )
        } else {
            false
        }
    }

    /// Whether this upper endpoint lies strictly below the lower endpoint
    /// `other`. At equal values that holds unless both are inclusive.
    pub fn less_than_min(&self, other: &MinPair<T>) -> (r: bool)
        ensures
            r == (self.pos() < other.pos()),
    {
        if self.value.less_than(&other.value) {
            true
        } else if self.value.same(&other.value) {
            !(matches!(self.inclusivity, Inclusivity::Inclusive) && matches!(
                other.inclusivity,
                Inclusivity::Inclusive
            ))
        } else {
            false
        }
    }

    /// Whether a range that ends here and one that starts at `other` overlap
    /// or touch, so that no position is left out between them. At equal
    /// values that holds unless both endpoints are exclusive.
    pub fn meets(&self, other: &MinPair<T>) -> (r: bool)
        ensures
            r == (other.pos() <= self.pos() + 1),
    {
        if other.value.less_than(&self.value) {
            true
        } else if self.value.same(&other.value) {
            !(matches!(self.inclusivity, Inclusivity::Exclusive) && matches!(
                other.inclusivity,
                Inclusivity::Exclusive
            ))
        } else {
            false
        }
    }

    /// Whether the two upper endpoints are the same.
    pub fn same(&self, other: &MaxPair<T>) -> (r: bool)
        ensures
            r == (self.pos() == other.pos()),
            r == (*self == *other),
    {
        proof {
            if self.value.rank() == other.value.rank() {
                self.value.rank_injective(other.value);
            }
        }
        self.value.same(&other.value) && self.inclusivity == other.inclusivity
    }
}

impl<T: MinMax> Range<T> {
    /// Whether the range holds at least one position: its lower endpoint is
    /// not above its upper endpoint.
    pub open spec fn valid(self) -> bool {
        self.min.pos() <= self.max.pos()
    }

    /// Whether the position `p` lies in the range.
    pub open spec fn holds(self, p: int) -> bool {
        self.min.pos() <= p <= self.max.pos()
    }

    /// Whether the range runs from the least to the greatest value, both
    /// included.
    pub open spec fn is_universe(self) -> bool {
        &&& self.min.pos() == 3 * T::lowest()
        &&& self.max.pos() == 3 * T::highest()
    }

    /// The range between the two endpoints given.
    pub open spec fn new_spec(min_v: T, min_i: Inclusivity, max_v: T, max_i: Inclusivity) -> Self {
        Range {
            min: MinPair { value: min_v, inclusivity: min_i },
            max: MaxPair { value: max_v, inclusivity: max_i },
        }
    }

    #[verifier::when_used_as_spec(new_spec)]
    pub fn new(min_v: T, min_i: Inclusivity, max_v: T, max_i: Inclusivity) -> (r: Self)
        ensures
            r == Range::new_spec(min_v, min_i, max_v, max_i),
    {
        Range {
            min: MinPair { value: min_v, inclusivity: min_i },
            max: MaxPair { value: max_v, inclusivity: max_i },
        }
    }

    /// The range that holds `value` and nothing else.
    pub fn of(value: T) -> (r: Self)
        ensures
            r == Range::new_spec(value, Inclusivity::Inclusive, value, Inclusivity::Inclusive),
    {
        Range::new(value, Inclusivity::Inclusive, value, Inclusivity::Inclusive)
    }

    /// The range of all values.
    pub fn universe() -> (r: Self)
        ensures
            r.is_universe(),
            r.min.inclusivity == Inclusivity::Inclusive,
            r.max.inclusivity == Inclusivity::Inclusive,
            r.valid(),
    {
        let lo = T::min_value();
        let hi = T::max_value();
        proof {
            lo.rank_in_bounds();
        }
        Range::new(lo, Inclusivity::Inclusive, hi, Inclusivity::Inclusive)
    }

    /// Everything below the range: from the least value up to the lower
    /// endpoint, which the result holds exactly where the range does not.
    pub fn before(&self) -> (r: Range<T>)
        ensures
            r.min.pos() == 3 * T::lowest(),
            r.min.inclusivity == Inclusivity::Inclusive,
            r.max == (MaxPair {
                value: self.min.value,
                inclusivity: self.min.inclusivity.flipped(),
            }),
            r.max.pos() == self.min.pos() - 1,
    {
        Range::new(
            T::min_value(),
            Inclusivity::Inclusive,
            self.min.value,
            self.min.inclusivity.flip(),
        )
    }

    /// Everything above the range: from the upper endpoint, which the result
    /// holds exactly where the range does not, up to the greatest value.
    pub fn after(&self) -> (r: Range<T>)
        ensures
            r.max.pos() == 3 * T::highest(),
            r.max.inclusivity == Inclusivity::Inclusive,
            r.min == (MinPair {
                value: self.max.value,
                inclusivity: self.max.inclusivity.flipped(),
            }),
            r.min.pos() == self.max.pos() + 1,
    {
        Range::new(
            self.max.value,
            self.max.inclusivity.flip(),
            T::max_value(),
            Inclusivity::Inclusive,
        )
    }

    /// The two ranges around this one: what lies below it and what lies
    /// above it.
    pub fn inverse(&self) -> (r: (Range<T>, Range<T>))
        ensures
            r.0.min.pos() == 3 * T::lowest(),
            r.0.max.pos() == self.min.pos() - 1,
            r.1.min.pos() == self.max.pos() + 1,
            r.1.max.pos() == 3 * T::highest(),
            forall|p: int|
                3 * T::lowest() <= p <= 3 * T::highest() ==> ((r.0.holds(p) || r.1.holds(p))
                    <==> !self.holds(p)),
    {
        (self.before(), self.after())
    }

    /// Whether the range holds at least one position.
    pub fn is_valid(&self) -> (r: bool)
        ensures
            r == self.valid(),
    {
        self.min.at_most_max(&self.max)
    }

    /// Whether the two ranges have the same endpoints.
    pub fn same(&self, other: &Range<T>) -> (r: bool)
        ensures
            r == (*self == *other),
    {
        self.min.same(&other.min) && self.max.same(&other.max)
    }
}

/// Whether one of the first `n` ranges of `s` holds the position `p`.
pub open spec fn covers<T: MinMax>(s: Seq<Range<T>>, n: int, p: int) -> bool {
    exists|k: int| 0 <= k < n && k < s.len() && #[trigger] s[k].holds(p)
}

/// The place of one of the first `n` ranges of `s` that hold the position
/// `p`, where there is one.
pub open spec fn holder<T: MinMax>(s: Seq<Range<T>>, n: int, p: int) -> int {
    choose|k: int| 0 <= k < n && k < s.len() && #[trigger] s[k].holds(p)
}

/// Whether one of the ranges of `s` holds the position `p`.
pub open spec fn seq_holds<T: MinMax>(s: Seq<Range<T>>, p: int) -> bool {
    covers(s, s.len() as int, p)
}

/// The invariant of an interval set: every range holds a position, the
/// ranges come in rising order, and between one range and any later one at
/// least one position is left out, so that no two overlap or touch.
pub open spec fn ordered<T: MinMax>(s: Seq<Range<T>>) -> bool {
    &&& forall|k: int| 0 <= k < s.len() ==> (#[trigger] s[k]).valid()
    &&& forall|k: int, l: int|
        0 <= k < l < s.len() ==> (#[trigger] s[k]).max.pos() + 1 < (#[trigger] s[l]).min.pos()
}

/// The sequence of one range, or of none where the range holds nothing.
pub open spec fn single<T: MinMax>(range: Range<T>) -> Seq<Range<T>> {
    if range.valid() {
        seq![range]
    } else {
        Seq::empty()
    }
}

/// Whether `s` is well-formed and holds the positions that `a` or `b` holds.
pub open spec fn is_union_of<T: MinMax>(
    s: Seq<Range<T>>,
    a: Seq<Range<T>>,
    b: Seq<Range<T>>,
) -> bool {
    &&& ordered(s)
    &&& forall|p: int| #[trigger] seq_holds(s, p) <==> (seq_holds(a, p) || seq_holds(b, p))
}

/// Whether `s` is well-formed and holds the positions that both `a` and `b`
/// hold.
pub open spec fn is_intersection_of<T: MinMax>(
    s: Seq<Range<T>>,
    a: Seq<Range<T>>,
    b: Seq<Range<T>>,
) -> bool {
    &&& ordered(s)
    &&& forall|p: int| #[trigger] seq_holds(s, p) <==> (seq_holds(a, p) && seq_holds(b, p))
}

/// Whether `s` is well-formed and holds the positions between the least and
/// the greatest value that `a` does not hold.
pub open spec fn is_complement_of<T: MinMax>(s: Seq<Range<T>>, a: Seq<Range<T>>) -> bool {
    &&& ordered(s)
    &&& forall|p: int| #[trigger]
        seq_holds(s, p) <==> (3 * T::lowest() <= p <= 3 * T::highest() && !seq_holds(a, p))
}

/// The union of two interval sets: the one well-formed sequence that holds
/// what either holds.
pub open spec fn union_of<T: MinMax>(a: Seq<Range<T>>, b: Seq<Range<T>>) -> Seq<Range<T>> {
    choose|s: Seq<Range<T>>| is_union_of(s, a, b)
}

/// The intersection of two interval sets: the one well-formed sequence that
/// holds what both hold.
pub open spec fn intersection_of<T: MinMax>(a: Seq<Range<T>>, b: Seq<Range<T>>) -> Seq<
    Range<T>,
> {
    choose|s: Seq<Range<T>>| is_intersection_of(s, a, b)
}

/// The complement of an interval set: the one well-formed sequence that
/// holds what the set leaves out between the least and the greatest value.
pub open spec fn complement_of<T: MinMax>(a: Seq<Range<T>>) -> Seq<Range<T>> {
    choose|s: Seq<Range<T>>| is_complement_of(s, a)
}

/// The hull of an interval set: the range from its lowest to its highest
/// endpoint, if it has a range.
pub open spec fn hull_of<T: MinMax>(s: Seq<Range<T>>) -> Option<Range<T>> {
    if s.len() == 0 {
        None
    } else {
        Some(Range { min: s[0].min, max: s[s.len() - 1].max })
    }
}

/// A sequence that is a union of `a` and `b` is the union of `a` and `b`.
pub proof fn lemma_union_is<T: MinMax>(s: Seq<Range<T>>, a: Seq<Range<T>>, b: Seq<Range<T>>)
    requires
        is_union_of(s, a, b),
    ensures
        s == union_of(a, b),
{
    let t = union_of(a, b);
    assert(is_union_of(t, a, b));
    assert forall|p: int|
        #![trigger seq_holds(s, p)]
        #![trigger seq_holds(t, p)]
        seq_holds(s, p) <==> seq_holds(t, p) by {}
    lemma_ordered_unique(s, t);
}

/// A sequence that is an intersection of `a` and `b` is the intersection of
/// `a` and `b`.
pub proof fn lemma_intersection_is<T: MinMax>(
    s: Seq<Range<T>>,
    a: Seq<Range<T>>,
    b: Seq<Range<T>>,
)
    requires
        is_intersection_of(s, a, b),
    ensures
        s == intersection_of(a, b),
{
    let t = intersection_of(a, b);
    assert(is_intersection_of(t, a, b));
    assert forall|p: int|
        #![trigger seq_holds(s, p)]
        #![trigger seq_holds(t, p)]
        seq_holds(s, p) <==> seq_holds(t, p) by {}
    lemma_ordered_unique(s, t);
}

/// A sequence that is a complement of `a` is the complement of `a`.
pub proof fn lemma_complement_is<T: MinMax>(s: Seq<Range<T>>, a: Seq<Range<T>>)
    requires
        is_complement_of(s, a),
    ensures
        s == complement_of(a),
{
    let t = complement_of(a);
    assert(is_complement_of(t, a));
    assert forall|p: int|
        #![trigger seq_holds(s, p)]
        #![trigger seq_holds(t, p)]
        seq_holds(s, p) <==> seq_holds(t, p) by {}
    lemma_ordered_unique(s, t);
}

/// What the sequence of one range holds.
pub proof fn lemma_single_holds<T: MinMax>(range: Range<T>)
    ensures
        ordered(single(range)),
        forall|p: int| #[trigger] seq_holds(single(range), p) <==> range.holds(p),
{
    let s = single(range);
    assert forall|p: int| #[trigger] seq_holds(s, p) <==> range.holds(p) by {
        if seq_holds(s, p) {
            let k = holder(s, s.len() as int, p);
        }
        if range.holds(p) {
            assert(s[0].holds(p));
        }
    }
}

/// A union of ranges, kept in rising order with no two ranges overlapping
/// or touching. The empty union stands for the value that is never reached.
#[derive(PartialEq, Eq, Clone, Debug)]
pub struct NumericalValue<T> {
    ranges: Vec<Range<T>>,
}

impl<T: MinMax> View for NumericalValue<T> {
    type V = Seq<Range<T>>;

    /// The ranges of the set, lowest first.
    closed spec fn view(&self) -> Seq<Range<T>> {
        self.ranges@
    }
}

impl<T: MinMax> NumericalValue<T> {
    /// The invariant of the set, see `ordered`.
    pub open spec fn wf(&self) -> bool {
        ordered(self@)
    }

    /// Whether the set holds the position `p`.
    pub open spec fn holds(&self, p: int) -> bool {
        seq_holds(self@, p)
    }

    /// The empty set.
    pub fn new() -> (r: Self)
        ensures
            r.wf(),
            r@ == Seq::<Range<T>>::empty(),
    {
        NumericalValue { ranges: Vec::new() }
    }

    /// The set of one range. A range whose lower endpoint lies above its
    /// upper endpoint holds nothing and gives the empty set.
    pub fn from_range(range: Range<T>) -> (r: Self)
        ensures
            r.wf(),
            r@ == single(range),
            forall|p: int| #[trigger] r.holds(p) <==> range.holds(p),
    {
        let mut ranges: Vec<Range<T>> = Vec::new();
        if range.is_valid() {
            ranges.push(range);
            assert(ranges@ =~= seq![range]);
            assert forall|p: int| range.holds(p) implies seq_holds(ranges@, p) by {
                assert(ranges@[0].holds(p));
            }
        }
        NumericalValue { ranges }
    }

    /// The set of the one range between the two endpoints given.
    pub fn new_value(min_v: T, min_i: Inclusivity, max_v: T, max_i: Inclusivity) -> (r: Self)
        ensures
            r.wf(),
            r@ == single(Range::new_spec(min_v, min_i, max_v, max_i)),
            forall|p: int| #[trigger]
                r.holds(p) <==> Range::new_spec(min_v, min_i, max_v, max_i).holds(p),
    {
        NumericalValue::from_range(Range::new(min_v, min_i, max_v, max_i))
    }

    /// The set that holds `value` and nothing else.
    pub fn from_value(value: T) -> (r: Self)
        ensures
            r.wf(),
            r@ == seq![Range::new_spec(value, Inclusivity::Inclusive, value,
                Inclusivity::Inclusive)],
    {
        NumericalValue::from_range(Range::of(value))
    }

    /// The set of all values.
    pub fn universe() -> (r: Self)
        ensures
            r.wf(),
            r@.len() == 1,
            r@[0].is_universe(),
            r@[0].min.inclusivity == Inclusivity::Inclusive,
            r@[0].max.inclusivity == Inclusivity::Inclusive,
            forall|p: int| #[trigger] r.holds(p) <==> 3 * T::lowest() <= p <= 3 * T::highest(),
    {
        let range = Range::universe();
        let r = NumericalValue::from_range(range);
        r
    }

    /// The number of ranges.
    pub fn len(&self) -> (r: usize)
        ensures
            r == self@.len(),
    {
        self.ranges.len()
    }

    /// Whether the set is empty.
    pub fn is_empty(&self) -> (r: bool)
        ensures
            r == (self@.len() == 0),
    {
        self.ranges.len() == 0
    }

    /// The range at place `i`, counted from the lowest.
    pub fn get(&self, i: usize) -> (r: Range<T>)
        requires
            i < self@.len(),
        ensures
            r == self@[i as int],
    {
        self.ranges[i]
    }

    /// The lower endpoint of the lowest range, if there is a range.
    pub fn min(&self) -> (r: Option<MinPair<T>>)
        ensures
            self@.len() == 0 ==> r.is_none(),
            self@.len() > 0 ==> r == Some(self@[0].min),
    {
        if self.ranges.len() == 0 {
            None
        } else {
            Some(self.ranges[0].min)
        }
    }

    /// The upper endpoint of the highest range, if there is a range.
    pub fn max(&self) -> (r: Option<MaxPair<T>>)
        ensures
            self@.len() == 0 ==> r.is_none(),
            self@.len() > 0 ==> r == Some(self@[self@.len() - 1].max),
    {
        let n = self.ranges.len();
        if n == 0 {
            None
        } else {
            Some(self.ranges[n - 1].max)
        }
    }

    /// The hull of the set: the one range from its lowest to its highest
    /// endpoint, if there is a range.
    pub fn range(&self) -> (r: Option<Range<T>>)
        ensures
            r == hull_of(self@),
    {
        match (self.min(), self.max()) {
            (Some(min), Some(max)) => Some(Range { min, max }),
            _ => None,
        }
    }
}

/// In a well-formed sequence a position lies in at most one range, and the
/// ranges before it end below the position while those after it start above.
pub proof fn lemma_ordered_apart<T: MinMax>(s: Seq<Range<T>>, k: int, l: int)
    requires
        ordered(s),
        0 <= k < l < s.len(),
    ensures
        s[k].min.pos() <= s[k].max.pos(),
        s[k].max.pos() + 1 < s[l].min.pos(),
        s[l].min.pos() <= s[l].max.pos(),
{
}

impl<T: MinMax> NumericalValue<T> {
    /// The positions that both sets hold.
    pub fn intersect(&self, other: &Self) -> (r: Self)
        requires
            self.wf(),
            other.wf(),
        ensures
            r.wf(),
            r@ == intersection_of(self@, other@),
            forall|p: int| #[trigger] r.holds(p) <==> (self.holds(p) && other.holds(p)),
    {
        self.intersect_impl(&other.ranges)
    }

    /// The positions of the set that lie in `range`.
    pub fn intersect_range(&self, range: &Range<T>) -> (r: Self)
        requires
            self.wf(),
        ensures
            r.wf(),
            r@ == intersection_of(self@, single(*range)),
            forall|p: int| #[trigger] r.holds(p) <==> (self.holds(p) && range.holds(p)),
    {
        let other = NumericalValue::from_range(*range);
        let r = self.intersect_impl(&other.ranges);
        proof {
            assert forall|p: int| #[trigger]
                r.holds(p) <==> (self.holds(p) && range.holds(p)) by {
                assert(other.holds(p) <==> range.holds(p));
            }
        }
        r
    }

    /// The positions of the set that lie between the two endpoints given.
    pub fn intersect_value(
        &self,
        min_v: T,
        min_i: Inclusivity,
        max_v: T,
        max_i: Inclusivity,
    ) -> (r: Self)
        requires
            self.wf(),
        ensures
            r.wf(),
            r@ == intersection_of(self@, single(Range::new_spec(min_v, min_i, max_v, max_i))),
            forall|p: int| #[trigger]
                r.holds(p) <==> (self.holds(p) && Range::new_spec(min_v, min_i, max_v, max_i).holds(
                    p,
                )),
    {
        self.intersect(&NumericalValue::new_value(min_v, min_i, max_v, max_i))
    }

    /// Walks the two sequences in step. Where the two current ranges
    /// overlap, their common part is written out; then the side whose range
    /// ends first moves on.
    fn intersect_impl(&self, other: &Vec<Range<T>>) -> (r: Self)
        requires
            self.wf(),
            ordered(other@),
        ensures
            r.wf(),
            r@ == intersection_of(self@, other@),
            forall|p: int| #[trigger] r.holds(p) <==> (self.holds(p) && seq_holds(other@, p)),
    {
        let n = self.ranges.len();
        let m = other.len();
        let mut out: Vec<Range<T>> = Vec::new();
        let mut i: usize = 0;
        let mut j: usize = 0;
        let ghost a = self.ranges@;
        let ghost b = other@;
        // Every position up to `done` is settled.
        let ghost mut done: int = if n > 0 && m > 0 {
            if a[0].min.pos() < b[0].min.pos() {
                a[0].min.pos() - 2
            } else {
                b[0].min.pos() - 2
            }
        } else {
            0
        };
        while i < n && j < m
            invariant
                n == a.len(),
                m == b.len(),
                a == self.ranges@,
                b == other@,
                ordered(a),
                ordered(b),
                i <= n,
                j <= m,
                ordered(out@),
                forall|k: int| 0 <= k < out@.len() ==> (#[trigger] out@[k]).max.pos() <= done,
                forall|k: int| 0 <= k < i ==> (#[trigger] a[k]).max.pos() <= done,
                forall|l: int| 0 <= l < j ==> (#[trigger] b[l]).max.pos() <= done,
                i < n && j < m ==> done <= a[i as int].max.pos() && done <= b[j as int].max.pos(),
                i < n && j < m ==> done + 1 < a[i as int].min.pos()
                    || done + 1 < b[j as int].min.pos(),
                forall|p: int|
                    seq_holds(out@, p) <==> (seq_holds(a, p) && seq_holds(b, p) && p <= done),
            decreases n - i + m - j,
        {
            let x = self.ranges[i];
            let y = other[j];
            let lo = if x.min.less_than(&y.min) {
                y.min
            } else {
                x.min
            };
            let first_ends = x.max.less_than(&y.max);
            let hi = if first_ends {
                x.max
            } else {
                y.max
            };
            let piece = Range { min: lo, max: hi };
            let ghost old_out = out@;
            let ghost old_done = done;
            proof {
                assert(a[i as int].valid());
                assert(b[j as int].valid());
                assert forall|p: int|
                    old_done < p <= hi.pos() && seq_holds(a, p) && seq_holds(b, p)
                        implies piece.holds(p) by {
                    let k = holder(a, a.len() as int, p);
                    let l = holder(b, b.len() as int, p);
                    if k < i {
                    } else if k > i {
                        lemma_ordered_apart(a, i as int, k);
                    }
                    if l < j {
                    } else if l > j {
                        lemma_ordered_apart(b, j as int, l);
                    }
                }
            }
            if piece.is_valid() {
                proof {
                    lemma_push_ordered(out@, piece);
                    lemma_push_holds(out@, piece);
                }
                out.push(piece);
            }
            proof {
                done = hi.pos();
                assert forall|p: int| piece.holds(p) implies seq_holds(a, p) && seq_holds(b, p) by {
                    assert(a[i as int].holds(p));
                    assert(b[j as int].holds(p));
                }
                if first_ends {
                    if i + 1 < n {
                        lemma_ordered_apart(a, i as int, i + 1);
                    }
                } else {
                    if j + 1 < m {
                        lemma_ordered_apart(b, j as int, j + 1);
                    }
                }
            }
            if first_ends {
                i = i + 1;
            } else {
                j = j + 1;
            }
        }
        proof {
            assert forall|p: int| seq_holds(a, p) && seq_holds(b, p) implies p <= done by {
                let k = holder(a, a.len() as int, p);
                let l = holder(b, b.len() as int, p);
            }
            assert(is_intersection_of(out@, a, b));
            lemma_intersection_is(out@, a, b);
        }
        NumericalValue { ranges: out }
    }
}

/// What pushing one range onto a sequence does to the positions it holds.
pub proof fn lemma_push_holds<T: MinMax>(s: Seq<Range<T>>, x: Range<T>)
    ensures
        forall|p: int| seq_holds(s.push(x), p) <==> (seq_holds(s, p) || x.holds(p)),
{
    let t = s.push(x);
    assert forall|p: int| seq_holds(t, p) <==> (seq_holds(s, p) || x.holds(p)) by {
        if seq_holds(t, p) {
            let k = holder(t, t.len() as int, p);
            if k < s.len() {
                assert(s[k].holds(p));
            }
        }
        if seq_holds(s, p) {
            let k = holder(s, s.len() as int, p);
            assert(t[k].holds(p));
        }
        if x.holds(p) {
            assert(t[t.len() - 1].holds(p));
        }
    }
}

/// A well-formed sequence stays well-formed when a range is pushed that
/// holds a position and starts above every range of the sequence, with at
/// least one position left out in between.
pub proof fn lemma_push_ordered<T: MinMax>(s: Seq<Range<T>>, x: Range<T>)
    requires
        ordered(s),
        x.valid(),
        forall|k: int| 0 <= k < s.len() ==> (#[trigger] s[k]).max.pos() + 1 < x.min.pos(),
    ensures
        ordered(s.push(x)),
{
    let t = s.push(x);
    assert forall|k: int| 0 <= k < t.len() implies (#[trigger] t[k]).valid() by {
        if k < s.len() {
            assert(t[k] == s[k]);
        }
    }
    assert forall|k: int, l: int| 0 <= k < l < t.len() implies (#[trigger] t[k]).max.pos() + 1 < (
    #[trigger] t[l]).min.pos() by {
        assert(t[k] == s[k]);
        if l < s.len() {
            assert(t[l] == s[l]);
        }
    }
}

/// What one more range adds to the positions that the first ranges hold.
pub proof fn lemma_covers_step<T: MinMax>(s: Seq<Range<T>>, n: int, next: int)
    requires
        0 <= n < s.len(),
        next == n + 1,
    ensures
        forall|p: int| covers(s, next, p) <==> (covers(s, n, p) || s[n].holds(p)),
{
    assert forall|p: int| covers(s, next, p) <==> (covers(s, n, p) || s[n].holds(p)) by {
        if covers(s, next, p) {
            let k = holder(s, next, p);
            if k < n {
                assert(covers(s, n, p));
            }
        }
        if covers(s, n, p) {
            let k = holder(s, n, p);
            assert(s[k].holds(p));
        }
    }
}

/// While two sequences are merged: what is written out and what is being
/// put together hold, at position `p`, what the ranges taken so far hold.
pub open spec fn merged_at<T: MinMax>(
    out: Seq<Range<T>>,
    acc: Range<T>,
    a: Seq<Range<T>>,
    i: int,
    b: Seq<Range<T>>,
    j: int,
    p: int,
) -> bool {
    (seq_holds(out, p) || acc.holds(p)) <==> (covers(a, i, p) || covers(b, j, p))
}

/// While a sequence is complemented: what is written out holds, at the
/// position `p`, what lies from `low` up to the cursor and outside the
/// ranges taken so far.
pub open spec fn complemented_at<T: MinMax>(
    out: Seq<Range<T>>,
    low: int,
    cursor: int,
    a: Seq<Range<T>>,
    i: int,
    p: int,
) -> bool {
    seq_holds(out, p) <==> (low <= p < cursor && !covers(a, i, p))
}

impl<T: MinMax> NumericalValue<T> {
    /// The positions that either set holds. Ranges of the two sets that
    /// overlap or touch come out as one range.
    pub fn union(&self, other: &Self) -> (r: Self)
        requires
            self.wf(),
            other.wf(),
        ensures
            r.wf(),
            r@ == union_of(self@, other@),
            forall|p: int| #[trigger] r.holds(p) <==> (self.holds(p) || other.holds(p)),
    {
        let n = self.ranges.len();
        let m = other.ranges.len();
        let ghost a = self.ranges@;
        let ghost b = other.ranges@;
        let mut out: Vec<Range<T>> = Vec::new();
        if n == 0 && m == 0 {
            proof {
                assert(is_union_of(out@, a, b));
                lemma_union_is(out@, a, b);
            }
            return NumericalValue { ranges: out };
        }
        let mut i: usize = 0;
        let mut j: usize = 0;
        // The range that is being put together.
        let mut acc: Range<T>;
        if m == 0 || (n > 0 && !other.ranges[0].min.less_than(&self.ranges[0].min)) {
            acc = self.ranges[0];
            i = 1;
            proof {
                lemma_covers_step(a, 0, i as int);
            }
        } else {
            acc = other.ranges[0];
            j = 1;
            proof {
                lemma_covers_step(b, 0, j as int);
            }
        }
        proof {
            assert(i < n ==> acc.min.pos() <= a[i as int].min.pos()) by {
                if i < n && i == 1 {
                    lemma_ordered_apart(a, 0, 1);
                }
            }
            assert(j < m ==> acc.min.pos() <= b[j as int].min.pos()) by {
                if j < m && j == 1 {
                    lemma_ordered_apart(b, 0, 1);
                }
            }
        }
        while i < n || j < m
            invariant
                n == a.len(),
                m == b.len(),
                a == self.ranges@,
                b == other.ranges@,
                ordered(a),
                ordered(b),
                i <= n,
                j <= m,
                ordered(out@),
                acc.valid(),
                forall|k: int| 0 <= k < out@.len()
                    ==> (#[trigger] out@[k]).max.pos() + 1 < acc.min.pos(),
                i < n ==> acc.min.pos() <= a[i as int].min.pos(),
                j < m ==> acc.min.pos() <= b[j as int].min.pos(),
                forall|p: int| #[trigger] merged_at(out@, acc, a, i as int, b, j as int, p),
            decreases n - i + m - j,
        {
            let take_first = j >= m || (i < n
                && !other.ranges[j].min.less_than(&self.ranges[i].min));
            let x = if take_first {
                self.ranges[i]
            } else {
                other.ranges[j]
            };
            let ghost old_acc = acc;
            let ghost old_i = i as int;
            let ghost old_j = j as int;
            proof {
                if take_first {
                    assert(x == a[i as int]);
                    if i + 1 < n {
                        lemma_ordered_apart(a, i as int, i + 1);
                    }
                } else {
                    assert(x == b[j as int]);
                    if j + 1 < m {
                        lemma_ordered_apart(b, j as int, j + 1);
                    }
                }
                assert(x.valid());
                assert(acc.min.pos() <= x.min.pos());
            }
            if take_first {
                i = i + 1;
                proof {
                    lemma_covers_step(a, old_i, i as int);
                }
            } else {
                j = j + 1;
                proof {
                    lemma_covers_step(b, old_j, j as int);
                }
            }
            let ghost old_out = out@;
            if acc.max.meets(&x.min) {
                if acc.max.less_than(&x.max) {
                    acc = Range { min: acc.min, max: x.max };
                }
                assert(forall|p: int| acc.holds(p) <==> (old_acc.holds(p) || x.holds(p)));
            } else {
                proof {
                    lemma_push_ordered(out@, acc);
                    lemma_push_holds(out@, acc);
                }
                out.push(acc);
                acc = x;
            }
            proof {
                assert forall|p: int| #[trigger]
                    merged_at(out@, acc, a, i as int, b, j as int, p) by {
                    assert(merged_at(old_out, old_acc, a, old_i, b, old_j, p));
                    assert((seq_holds(out@, p) || acc.holds(p)) <==> (seq_holds(old_out, p)
                        || old_acc.holds(p) || x.holds(p))) by {
                        if out@.len() != old_out.len() {
                            assert(out@ == old_out.push(old_acc));
                            assert(seq_holds(old_out.push(old_acc), p) <==> (seq_holds(old_out, p)
                                || old_acc.holds(p)));
                        }
                    }
                    if take_first {
                        assert(covers(a, i as int, p) <==> (covers(a, old_i, p) || a[old_i].holds(
                            p,
                        )));
                    } else {
                        assert(covers(b, j as int, p) <==> (covers(b, old_j, p) || b[old_j].holds(
                            p,
                        )));
                    }
                }
            }
        }
        let ghost last_out = out@;
        proof {
            lemma_push_ordered(out@, acc);
            lemma_push_holds(out@, acc);
        }
        out.push(acc);
        proof {
            assert forall|p: int| seq_holds(out@, p) <==> (seq_holds(a, p) || seq_holds(b, p)) by {
                assert(out@ == last_out.push(acc));
                assert(seq_holds(last_out.push(acc), p) <==> (seq_holds(last_out, p)
                    || acc.holds(p)));
                assert(merged_at(last_out, acc, a, i as int, b, j as int, p));
            }
            assert(is_union_of(out@, a, b));
            lemma_union_is(out@, a, b);
        }
        NumericalValue { ranges: out }
    }

    /// The union of the set with the one range between the two endpoints
    /// given.
    pub fn union_value(&self, min_v: T, min_i: Inclusivity, max_v: T, max_i: Inclusivity) -> (r:
        Self)
        requires
            self.wf(),
        ensures
            r.wf(),
            r@ == union_of(self@, single(Range::new_spec(min_v, min_i, max_v, max_i))),
            forall|p: int| #[trigger]
                r.holds(p) <==> (self.holds(p) || Range::new_spec(min_v, min_i, max_v, max_i).holds(
                    p,
                )),
    {
        self.union(&NumericalValue::new_value(min_v, min_i, max_v, max_i))
    }

    /// The complement: the positions between the least and the greatest
    /// value that the set does not hold.
    pub fn inverse(&self) -> (r: Self)
        requires
            self.wf(),
        ensures
            r.wf(),
            r@ == complement_of(self@),
            forall|p: int| #[trigger]
                r.holds(p) <==> (3 * T::lowest() <= p <= 3 * T::highest() && !self.holds(p)),
    {
        let n = self.ranges.len();
        let ghost a = self.ranges@;
        let mut out: Vec<Range<T>> = Vec::new();
        // Where the next gap starts.
        let mut cursor = MinPair { value: T::min_value(), inclusivity: Inclusivity::Inclusive };
        let mut i: usize = 0;
        proof {
            if n > 0 {
                a[0].min.value.rank_in_bounds();
            }
        }
        while i < n
            invariant
                n == a.len(),
                a == self.ranges@,
                ordered(a),
                i <= n,
                ordered(out@),
                3 * T::lowest() <= cursor.pos(),
                forall|k: int| 0 <= k < out@.len()
                    ==> (#[trigger] out@[k]).max.pos() + 1 < cursor.pos(),
                i < n ==> cursor.pos() <= a[i as int].min.pos(),
                forall|k: int| 0 <= k < i ==> (#[trigger] a[k]).max.pos() < cursor.pos(),
                forall|p: int| #[trigger]
                    complemented_at(out@, 3 * T::lowest(), cursor.pos(), a, i as int, p),
            decreases n - i,
        {
            let x = self.ranges[i];
            let gap = Range {
                min: cursor,
                max: MaxPair { value: x.min.value, inclusivity: x.min.inclusivity.flip() },
            };
            proof {
                assert(x == a[i as int]);
                assert(x.valid());
                assert(gap.max.pos() == x.min.pos() - 1);
                lemma_covers_step(a, i as int, i + 1);
                assert(forall|p: int| #[trigger] covers(a, i + 1, p) <==> (covers(a, i as int, p)
                    || x.holds(p)));
                if i + 1 < n {
                    lemma_ordered_apart(a, i as int, i + 1);
                }
            }
            let ghost old_out = out@;
            let ghost old_cursor = cursor;
            if gap.is_valid() {
                proof {
                    lemma_push_ordered(out@, gap);
                    lemma_push_holds(out@, gap);
                }
                out.push(gap);
            }
            cursor = MinPair { value: x.max.value, inclusivity: x.max.inclusivity.flip() };
            i = i + 1;
            proof {
                assert(cursor.pos() == x.max.pos() + 1);
                assert forall|p: int| #[trigger]
                    complemented_at(out@, 3 * T::lowest(), cursor.pos(), a, i as int, p) by {
                    assert(complemented_at(old_out, 3 * T::lowest(), old_cursor.pos(), a, i - 1,
                        p));
                    assert(covers(a, i as int, p) <==> (covers(a, i - 1, p) || x.holds(p)));
                    assert(seq_holds(out@, p) <==> (seq_holds(old_out, p) || gap.holds(p))) by {
                        if out@.len() != old_out.len() {
                            assert(out@ == old_out.push(gap));
                            assert(seq_holds(old_out.push(gap), p) <==> (seq_holds(old_out, p)
                                || gap.holds(p)));
                        }
                    }
                    if old_cursor.pos() <= p && covers(a, i - 1, p) {
                        let k = holder(a, i - 1, p);
                    }
                }
            }
        }
        let top = MaxPair { value: T::max_value(), inclusivity: Inclusivity::Inclusive };
        let rest = Range { min: cursor, max: top };
        let ghost old_out = out@;
        if rest.is_valid() {
            proof {
                lemma_push_ordered(out@, rest);
                lemma_push_holds(out@, rest);
            }
            out.push(rest);
        }
        let r = NumericalValue { ranges: out };
        proof {
            assert forall|p: int| #[trigger]
                r.holds(p) <==> (3 * T::lowest() <= p <= 3 * T::highest() && !self.holds(p)) by {
                assert(complemented_at(old_out, 3 * T::lowest(), cursor.pos(), a, i as int, p));
                assert(seq_holds(r@, p) <==> (seq_holds(old_out, p) || rest.holds(p))) by {
                    if r@.len() != old_out.len() {
                        assert(r@ == old_out.push(rest));
                        assert(seq_holds(old_out.push(rest), p) <==> (seq_holds(old_out, p)
                            || rest.holds(p)));
                    }
                }
                cursor.value.rank_in_bounds();
                if seq_holds(a, p) {
                    let k = holder(a, a.len() as int, p);
                    a[k].min.value.rank_in_bounds();
                    a[k].max.value.rank_in_bounds();
                }
            }
            assert forall|p: int| #[trigger]
                seq_holds(r@, p) <==> (3 * T::lowest() <= p <= 3 * T::highest() && !seq_holds(
                    a,
                    p,
                )) by {
                assert(r.holds(p) <==> (3 * T::lowest() <= p <= 3 * T::highest()
                    && !self.holds(p)));
            }
            assert(is_complement_of(r@, a));
            lemma_complement_is(r@, a);
        }
        r
    }
}

impl<T: MinMax> Range<T> {
    /// The text of the range: a square bracket at an inclusive end and a
    /// round one at an exclusive end, around the two values with a comma and
    /// a space between them.
    pub open spec fn text(self) -> Seq<char> {
        seq![
            if self.min.inclusivity == Inclusivity::Inclusive {
                '['
            } else {
                '('
            },
        ] + self.min.value.text() + seq![',', ' '] + self.max.value.text() + seq![
            if self.max.inclusivity == Inclusivity::Inclusive {
                ']'
            } else {
                ')'
            },
        ]
    }

    /// Appends the text of the range to `out`.
    pub fn push_text_to(&self, out: &mut String)
        ensures
            final(out)@ == old(out)@ + self.text(),
    {
        let open = if matches!(self.min.inclusivity, Inclusivity::Inclusive) {
            '['
        } else {
            '('
        };
        let close = if matches!(self.max.inclusivity, Inclusivity::Inclusive) {
            ']'
        } else {
            ')'
        };
        push_char(out, open);
        let low = self.min.value.to_text();
        out.append(low.as_str());
        push_char(out, ',');
        push_char(out, ' ');
        let high = self.max.value.to_text();
        out.append(high.as_str());
        push_char(out, close);
        assert(out@ =~= old(out)@ + self.text());
    }

    /// The text of the range, see `text`.
    pub fn to_text(&self) -> (r: String)
        ensures
            r@ == self.text(),
    {
        let mut out = String::new();
        self.push_text_to(&mut out);
        assert(out@ =~= self.text());
        out
    }
}

/// The texts of the first `n` ranges of `s`, with ` U ` between them.
pub open spec fn joined_text<T: MinMax>(s: Seq<Range<T>>, n: int) -> Seq<char>
    decreases n,
{
    if n <= 0 {
        Seq::empty()
    } else if n == 1 {
        s[0].text()
    } else {
        joined_text(s, n - 1) + seq![' ', 'U', ' '] + s[n - 1].text()
    }
}

/// The text of an interval set: its ranges with ` U ` between them, and
/// `(0, 0)` for the empty set.
pub open spec fn set_text<T: MinMax>(s: Seq<Range<T>>) -> Seq<char> {
    if s.len() == 0 {
        seq!['(', '0', ',', ' ', '0', ')']
    } else {
        joined_text(s, s.len() as int)
    }
}

impl<T: MinMax> NumericalValue<T> {
    /// The text of the set, see `set_text`.
    pub fn to_text(&self) -> (r: String)
        ensures
            r@ == set_text(self@),
    {
        let mut out = String::new();
        let n = self.ranges.len();
        if n == 0 {
            push_char(&mut out, '(');
            push_char(&mut out, '0');
            push_char(&mut out, ',');
            push_char(&mut out, ' ');
            push_char(&mut out, '0');
            push_char(&mut out, ')');
            assert(out@ =~= seq!['(', '0', ',', ' ', '0', ')']);
            return out;
        }
        let mut i: usize = 0;
        while i < n
            invariant
                n == self.ranges@.len(),
                i <= n,
                out@ == joined_text(self.ranges@, i as int),
            decreases n - i,
        {
            if i > 0 {
                push_char(&mut out, ' ');
                push_char(&mut out, 'U');
                push_char(&mut out, ' ');
            }
            let ghost before = out@;
            self.ranges[i].push_text_to(&mut out);
            proof {
                if i > 0 {
                    assert(before =~= joined_text(self.ranges@, i as int) + seq![' ', 'U', ' ']);
                } else {
                    assert(out@ =~= self.ranges@[0].text());
                }
            }
            i = i + 1;
        }
        out
    }

    /// A copy of the set.
    pub fn duplicate(&self) -> (r: Self)
        ensures
            r@ == self@,
    {
        let mut ranges: Vec<Range<T>> = Vec::new();
        let n = self.ranges.len();
        let mut i: usize = 0;
        while i < n
            invariant
                n == self.ranges@.len(),
                i <= n,
                ranges@ == self.ranges@.subrange(0, i as int),
            decreases n - i,
        {
            ranges.push(self.ranges[i]);
            assert(ranges@ =~= self.ranges@.subrange(0, i + 1));
            i = i + 1;
        }
        assert(ranges@ =~= self.ranges@);
        NumericalValue { ranges }
    }

    /// Whether the two sets have the same ranges.
    pub fn same(&self, other: &Self) -> (r: bool)
        ensures
            r == (self@ == other@),
    {
        let n = self.ranges.len();
        if n != other.ranges.len() {
            return false;
        }
        let mut i: usize = 0;
        while i < n
            invariant
                n == self.ranges@.len(),
                n == other.ranges@.len(),
                i <= n,
                forall|k: int| 0 <= k < i ==> self.ranges@[k] == other.ranges@[k],
            decreases n - i,
        {
            if !self.ranges[i].same(&other.ranges[i]) {
                return false;
            }
            i = i + 1;
        }
        assert(self.ranges@ =~= other.ranges@);
        true
    }
}

impl<T: MinMax> FromSpecImpl<T> for Range<T> {
    open spec fn obeys_from_spec() -> bool {
        true
    }

    open spec fn from_spec(value: T) -> Self {
        Range::new_spec(value, Inclusivity::Inclusive, value, Inclusivity::Inclusive)
    }
}

/// The range that holds the value and nothing else.
impl<T: MinMax> From<T> for Range<T> {
    fn from(value: T) -> (r: Self) {
        Range::of(value)
    }
}

impl<T: MinMax> FromSpecImpl<Range<T>> for NumericalValue<T> {
    open spec fn obeys_from_spec() -> bool {
        false
    }

    open spec fn from_spec(range: Range<T>) -> Self {
        arbitrary()
    }
}

/// The set of one range, see `from_range`.
impl<T: MinMax> From<Range<T>> for NumericalValue<T> {
    fn from(range: Range<T>) -> (r: Self)
        ensures
            r.wf(),
            r@ == single(range),
    {
        NumericalValue::from_range(range)
    }
}

impl<T: MinMax> FromSpecImpl<T> for NumericalValue<T> {
    open spec fn obeys_from_spec() -> bool {
        false
    }

    open spec fn from_spec(value: T) -> Self {
        arbitrary()
    }
}

/// The set that holds the value and nothing else, see `from_value`.
impl<T: MinMax> From<T> for NumericalValue<T> {
    fn from(value: T) -> (r: Self)
        ensures
            r.wf(),
            r@ == seq![Range::new_spec(value, Inclusivity::Inclusive, value,
                Inclusivity::Inclusive)],
    {
        NumericalValue::from_value(value)
    }
}

} // verus!
