//! What holds of interval sets beyond the contract of each operation: a set
//! of positions has one representation only, and the laws of union,
//! intersection and complement that follow from it.

use vstd::prelude::*;
use crate::numerical_value::{
    complement_of,
    covers,
    holder,
    hull_of,
    intersection_of,
    is_complement_of,
    is_intersection_of,
    is_union_of,
    lemma_complement_is,
    lemma_covers_step,
    lemma_intersection_is,
    lemma_push_holds,
    lemma_push_ordered,
    lemma_single_holds,
    lemma_union_is,
    ordered,
    seq_holds,
    single,
    union_of,
    Inclusivity,
    MaxPair,
    MinMax,
    MinPair,
    Range,
};

verus! {

/// Two lower endpoints at the same position are the same endpoint, and so
/// are two upper endpoints.
pub proof fn lemma_same_positions_same_range<T: MinMax>(x: Range<T>, y: Range<T>)
    requires
        x.min.pos() == y.min.pos(),
        x.max.pos() == y.max.pos(),
    ensures
        x == y,
{
    assert(x.min.value.rank() == y.min.value.rank());
    assert(x.max.value.rank() == y.max.value.rank());
    x.min.value.rank_injective(y.min.value);
    x.max.value.rank_injective(y.max.value);
}

/// The ranges after the first form a well-formed sequence again, and hold
/// what the whole sequence holds above the first range.
pub proof fn lemma_tail<T: MinMax>(s: Seq<Range<T>>)
    requires
        ordered(s),
        s.len() > 0,
    ensures
        ordered(s.drop_first()),
        forall|p: int| #[trigger]
            seq_holds(s.drop_first(), p) <==> (seq_holds(s, p) && p > s[0].max.pos()),
{
    let t = s.drop_first();
    assert forall|k: int| 0 <= k < t.len() implies (#[trigger] t[k]).valid() by {
        assert(t[k] == s[k + 1]);
    }
    assert forall|k: int, l: int| 0 <= k < l < t.len() implies (#[trigger] t[k]).max.pos() + 1 < (
    #[trigger] t[l]).min.pos() by {
        assert(t[k] == s[k + 1]);
        assert(t[l] == s[l + 1]);
    }
    assert forall|p: int| seq_holds(t, p) <==> (seq_holds(s, p) && p > s[0].max.pos()) by {
        if seq_holds(t, p) {
            let k = holder(t, t.len() as int, p);
            assert(t[k] == s[k + 1]);
            assert(s[k + 1].holds(p));
            assert(s[0].max.pos() + 1 < s[k + 1].min.pos());
        }
        if seq_holds(s, p) && p > s[0].max.pos() {
            let k = holder(s, s.len() as int, p);
            assert(k > 0);
            assert(t[k - 1] == s[k]);
            assert(t[k - 1].holds(p));
        }
    }
}

/// The first range of a well-formed sequence starts at the lowest position
/// that the sequence holds and ends just below the first position above it
/// that the sequence does not hold.
pub proof fn lemma_first_range<T: MinMax>(s: Seq<Range<T>>)
    requires
        ordered(s),
        s.len() > 0,
    ensures
        seq_holds(s, s[0].min.pos()),
        forall|p: int| #[trigger] seq_holds(s, p) ==> s[0].min.pos() <= p,
        forall|p: int| s[0].min.pos() <= p <= s[0].max.pos() ==> #[trigger] seq_holds(s, p),
        !seq_holds(s, s[0].max.pos() + 1),
{
    assert(s[0].valid());
    assert(s[0].holds(s[0].min.pos()));
    assert forall|p: int| seq_holds(s, p) implies s[0].min.pos() <= p by {
        let k = holder(s, s.len() as int, p);
        if k > 0 {
            assert(s[0].max.pos() + 1 < s[k].min.pos());
        }
    }
    assert forall|p: int| s[0].min.pos() <= p <= s[0].max.pos() implies seq_holds(s, p) by {
        assert(s[0].holds(p));
    }
    if seq_holds(s, s[0].max.pos() + 1) {
        let p = s[0].max.pos() + 1;
        let k = holder(s, s.len() as int, p);
        if k > 0 {
            assert(s[0].max.pos() + 1 < s[k].min.pos());
        }
    }
}

/// A set of positions has at most one representation: two well-formed
/// sequences that hold the same positions are the same sequence.
pub proof fn lemma_ordered_unique<T: MinMax>(s: Seq<Range<T>>, t: Seq<Range<T>>)
    requires
        ordered(s),
        ordered(t),
        forall|p: int| #![trigger seq_holds(s, p)] #![trigger seq_holds(t, p)] seq_holds(s, p)
            <==> seq_holds(t, p),
    ensures
        s == t,
    decreases s.len(),
{
    if s.len() == 0 {
        if t.len() > 0 {
            lemma_first_range(t);
            let p = t[0].min.pos();
            assert(seq_holds(s, p));
            let k = holder(s, s.len() as int, p);
        }
        assert(s =~= t);
    } else {
        lemma_first_range(s);
        if t.len() == 0 {
            let p = s[0].min.pos();
            assert(seq_holds(t, p));
            let k = holder(t, t.len() as int, p);
        }
        lemma_first_range(t);
        assert(s[0].min.pos() == t[0].min.pos());
        if s[0].max.pos() < t[0].max.pos() {
            assert(seq_holds(t, s[0].max.pos() + 1));
        }
        if t[0].max.pos() < s[0].max.pos() {
            assert(seq_holds(s, t[0].max.pos() + 1));
        }
        lemma_same_positions_same_range(s[0], t[0]);
        lemma_tail(s);
        lemma_tail(t);
        assert forall|p: int|
            #![trigger seq_holds(s.drop_first(), p)]
            #![trigger seq_holds(t.drop_first(), p)]
            seq_holds(s.drop_first(), p) <==> seq_holds(t.drop_first(), p) by {
            assert(seq_holds(s, p) <==> seq_holds(t, p));
        }
        lemma_ordered_unique(s.drop_first(), t.drop_first());
        assert(s =~= seq![s[0]] + s.drop_first());
        assert(t =~= seq![t[0]] + t.drop_first());
    }
}

/// Every position that a well-formed sequence holds lies between the least
/// and the greatest value.
pub proof fn lemma_holds_in_bounds<T: MinMax>(s: Seq<Range<T>>, p: int)
    requires
        seq_holds(s, p),
    ensures
        3 * T::lowest() <= p <= 3 * T::highest(),
{
    let k = holder(s, s.len() as int, p);
    s[k].min.value.rank_in_bounds();
    s[k].max.value.rank_in_bounds();
}

/// The union of a set with itself is the set.
pub proof fn law_union_idempotent<T: MinMax>(a: Seq<Range<T>>)
    requires
        ordered(a),
    ensures
        union_of(a, a) == a,
{
    assert(is_union_of(a, a, a));
    lemma_union_is(a, a, a);
}

/// The intersection of a set with itself is the set.
pub proof fn law_intersection_idempotent<T: MinMax>(a: Seq<Range<T>>)
    requires
        ordered(a),
    ensures
        intersection_of(a, a) == a,
{
    assert(is_intersection_of(a, a, a));
    lemma_intersection_is(a, a, a);
}

/// The union of a set with the empty set, on either side, is the set.
pub proof fn law_union_empty<T: MinMax>(a: Seq<Range<T>>)
    requires
        ordered(a),
    ensures
        union_of(a, Seq::<Range<T>>::empty()) == a,
        union_of(Seq::<Range<T>>::empty(), a) == a,
{
    let none = Seq::<Range<T>>::empty();
    assert forall|p: int| !seq_holds(none, p) by {
        if seq_holds(none, p) {
            let k = holder(none, none.len() as int, p);
        }
    }
    assert(is_union_of(a, a, none));
    assert(is_union_of(a, none, a));
    lemma_union_is(a, a, none);
    lemma_union_is(a, none, a);
}

/// The intersection of a set with the set of all values, on either side,
/// is the set.
pub proof fn law_intersection_universe<T: MinMax>(a: Seq<Range<T>>, universe: Range<T>)
    requires
        ordered(a),
        universe.is_universe(),
    ensures
        intersection_of(a, seq![universe]) == a,
        intersection_of(seq![universe], a) == a,
{
    let all = seq![universe];
    assert forall|p: int| seq_holds(a, p) implies seq_holds(all, p) by {
        lemma_holds_in_bounds(a, p);
        assert(all[0].holds(p));
    }
    assert(is_intersection_of(a, a, all));
    assert(is_intersection_of(a, all, a));
    lemma_intersection_is(a, a, all);
    lemma_intersection_is(a, all, a);
}

/// The complement of the complement of a set is the set: where `c` is the
/// complement of `a`, `a` is the complement of `c`.
pub proof fn law_complement_involution<T: MinMax>(a: Seq<Range<T>>, c: Seq<Range<T>>)
    requires
        ordered(a),
        is_complement_of(c, a),
    ensures
        is_complement_of(a, c),
        complement_of(c) == a,
        c == complement_of(a),
{
    assert forall|p: int| #[trigger]
        seq_holds(a, p) <==> (3 * T::lowest() <= p <= 3 * T::highest() && !seq_holds(c, p)) by {
        if seq_holds(a, p) {
            lemma_holds_in_bounds(a, p);
        }
    }
    lemma_complement_is(a, c);
    lemma_complement_is(c, a);
}

/// Where the gap below the range at place `n` starts: at the least value
/// for the first range, else just above the range before.
pub open spec fn gap_start<T: MinMax>(a: Seq<Range<T>>, n: int, least: T) -> MinPair<T> {
    if n <= 0 {
        MinPair { value: least, inclusivity: Inclusivity::Inclusive }
    } else {
        MinPair { value: a[n - 1].max.value, inclusivity: a[n - 1].max.inclusivity.flipped() }
    }
}

/// The sequence with `x` at its end where `x` holds a position, and the
/// sequence itself where it does not.
pub open spec fn with_gap<T: MinMax>(s: Seq<Range<T>>, x: Range<T>) -> Seq<Range<T>> {
    if x.valid() {
        s.push(x)
    } else {
        s
    }
}

/// The gaps below the first `n` ranges of `a`: what lies between the least
/// value and the first range, and between each range and the next.
pub open spec fn gaps<T: MinMax>(a: Seq<Range<T>>, n: int, least: T) -> Seq<Range<T>>
    decreases n,
{
    if n <= 0 {
        Seq::empty()
    } else {
        with_gap(
            gaps(a, n - 1, least),
            Range {
                min: gap_start(a, n - 1, least),
                max: MaxPair {
                    value: a[n - 1].min.value,
                    inclusivity: a[n - 1].min.inclusivity.flipped(),
                },
            },
        )
    }
}

/// The gaps of `a` with what lies above its last range up to the greatest
/// value.
pub open spec fn complement_seq<T: MinMax>(a: Seq<Range<T>>, least: T, greatest: T) -> Seq<
    Range<T>,
> {
    with_gap(
        gaps(a, a.len() as int, least),
        Range {
            min: gap_start(a, a.len() as int, least),
            max: MaxPair { value: greatest, inclusivity: Inclusivity::Inclusive },
        },
    )
}

/// The gaps below the first `n` ranges are well-formed, end below the place
/// where the next gap starts, and hold what lies below that place and
/// outside the first `n` ranges.
pub proof fn lemma_gaps<T: MinMax>(a: Seq<Range<T>>, n: int, least: T)
    requires
        ordered(a),
        0 <= n <= a.len(),
        least.rank() == T::lowest(),
    ensures
        ordered(gaps(a, n, least)),
        3 * T::lowest() <= gap_start(a, n, least).pos(),
        n < a.len() ==> gap_start(a, n, least).pos() <= a[n].min.pos(),
        forall|k: int|
            0 <= k < gaps(a, n, least).len() ==> (#[trigger] gaps(a, n, least)[k]).max.pos() + 1
                < gap_start(a, n, least).pos(),
        forall|k: int| 0 <= k < n ==> (#[trigger] a[k]).max.pos() < gap_start(a, n, least).pos(),
        forall|p: int| #[trigger]
            seq_holds(gaps(a, n, least), p) <==> (3 * T::lowest() <= p < gap_start(
                a,
                n,
                least,
            ).pos() && !covers(a, n, p)),
    decreases n,
{
    if n < a.len() {
        a[n].min.value.rank_in_bounds();
        if n > 0 {
            assert(a[n - 1].max.pos() + 1 < a[n].min.pos());
        }
    }
    if n == 0 {
        let none = gaps(a, 0, least);
        assert forall|p: int| #[trigger]
            seq_holds(none, p) <==> (3 * T::lowest() <= p < gap_start(a, 0, least).pos()
                && !covers(a, 0, p)) by {
            if seq_holds(none, p) {
                let k = holder(none, none.len() as int, p);
            }
        }
    } else {
        lemma_gaps(a, n - 1, least);
        let before = gaps(a, n - 1, least);
        let x = a[n - 1];
        let gap = Range {
            min: gap_start(a, n - 1, least),
            max: MaxPair { value: x.min.value, inclusivity: x.min.inclusivity.flipped() },
        };
        let after = gaps(a, n, least);
        let start = gap_start(a, n - 1, least).pos();
        let next = gap_start(a, n, least).pos();
        assert(x.valid());
        assert(gap.max.pos() == x.min.pos() - 1);
        assert(next == x.max.pos() + 1);
        lemma_covers_step(a, n - 1, n);
        if gap.valid() {
            lemma_push_ordered(before, gap);
            lemma_push_holds(before, gap);
        }
        assert forall|k: int| 0 <= k < after.len() implies (#[trigger] after[k]).max.pos() + 1
            < next by {
            if k < before.len() {
                assert(after[k] == before[k]);
            }
        }
        assert forall|k: int| 0 <= k < n implies (#[trigger] a[k]).max.pos() < next by {
            if k < n - 1 {
                assert(a[k].max.pos() + 1 < a[n - 1].min.pos());
            }
        }
        assert forall|p: int| #[trigger]
            seq_holds(after, p) <==> (3 * T::lowest() <= p < next && !covers(a, n, p)) by {
            assert(seq_holds(before, p) <==> (3 * T::lowest() <= p < start && !covers(
                a,
                n - 1,
                p,
            )));
            assert(covers(a, n, p) <==> (covers(a, n - 1, p) || x.holds(p)));
            assert(seq_holds(after, p) <==> (seq_holds(before, p) || gap.holds(p))) by {
                if gap.valid() {
                    assert(seq_holds(before.push(gap), p) <==> (seq_holds(before, p) || gap.holds(
                        p,
                    )));
                }
            }
            if start <= p && covers(a, n - 1, p) {
                let k = holder(a, n - 1, p);
            }
        }
    }
}

/// Every well-formed sequence has a complement: its gaps, with what lies
/// above its last range.
pub proof fn lemma_complement_exists<T: MinMax>(a: Seq<Range<T>>, least: T, greatest: T)
    requires
        ordered(a),
        least.rank() == T::lowest(),
        greatest.rank() == T::highest(),
    ensures
        is_complement_of(complement_seq(a, least, greatest), a),
        is_complement_of(complement_of(a), a),
{
    let n = a.len() as int;
    lemma_gaps(a, n, least);
    let before = gaps(a, n, least);
    let rest = Range {
        min: gap_start(a, n, least),
        max: MaxPair { value: greatest, inclusivity: Inclusivity::Inclusive },
    };
    let c = complement_seq(a, least, greatest);
    if rest.valid() {
        lemma_push_ordered(before, rest);
        lemma_push_holds(before, rest);
    }
    assert forall|p: int| #[trigger]
        seq_holds(c, p) <==> (3 * T::lowest() <= p <= 3 * T::highest() && !seq_holds(a, p)) by {
        assert(seq_holds(before, p) <==> (3 * T::lowest() <= p < rest.min.pos() && !covers(
            a,
            n,
            p,
        )));
        assert(seq_holds(c, p) <==> (seq_holds(before, p) || rest.holds(p))) by {
            if rest.valid() {
                assert(seq_holds(before.push(rest), p) <==> (seq_holds(before, p) || rest.holds(
                    p,
                )));
            }
        }
        rest.min.value.rank_in_bounds();
        if seq_holds(a, p) {
            lemma_holds_in_bounds(a, p);
            let k = holder(a, a.len() as int, p);
        }
    }
    assert(is_complement_of(c, a));
}

/// The complement of the complement of a set is the set. The least and the
/// greatest value of the scalar are handed in.
pub proof fn law_complement_twice<T: MinMax>(a: Seq<Range<T>>, least: T, greatest: T)
    requires
        ordered(a),
        least.rank() == T::lowest(),
        greatest.rank() == T::highest(),
    ensures
        complement_of(complement_of(a)) == a,
{
    lemma_complement_exists(a, least, greatest);
    law_complement_involution(a, complement_of(a));
}

/// The hull of a well-formed sequence holds every position that the
/// sequence holds.
pub proof fn lemma_hull_holds<T: MinMax>(s: Seq<Range<T>>, p: int)
    requires
        ordered(s),
        seq_holds(s, p),
    ensures
        hull_of(s) matches Some(h) && h.holds(p),
{
    let k = holder(s, s.len() as int, p);
    let last = s.len() - 1;
    assert(s[0].valid());
    assert(s[last].valid());
    if 0 < k {
        assert(s[0].max.pos() + 1 < s[k].min.pos());
    }
    if k < last {
        assert(s[k].max.pos() + 1 < s[last].min.pos());
    }
}

/// The part of `r` that lies in `x`.
pub open spec fn piece<T: MinMax>(r: Range<T>, x: Range<T>) -> Range<T> {
    Range {
        min: if r.min.pos() < x.min.pos() {
            x.min
        } else {
            r.min
        },
        max: if x.max.pos() < r.max.pos() {
            x.max
        } else {
            r.max
        },
    }
}

/// The parts of the first `n` ranges of `a` that lie in `x`.
pub open spec fn clip<T: MinMax>(a: Seq<Range<T>>, n: int, x: Range<T>) -> Seq<Range<T>>
    decreases n,
{
    if n <= 0 {
        Seq::empty()
    } else {
        with_gap(clip(a, n - 1, x), piece(a[n - 1], x))
    }
}

/// The parts of the first `n` ranges that lie in `x` are well-formed, end
/// no higher than the last of these ranges, and hold what both the ranges
/// and `x` hold.
pub proof fn lemma_clip<T: MinMax>(a: Seq<Range<T>>, n: int, x: Range<T>)
    requires
        ordered(a),
        0 <= n <= a.len(),
    ensures
        ordered(clip(a, n, x)),
        forall|k: int|
            0 <= k < clip(a, n, x).len() ==> n > 0 && (#[trigger] clip(a, n, x)[k]).max.pos()
                <= a[n - 1].max.pos(),
        forall|k: int|
            0 <= k < clip(a, n, x).len() ==> x.min.pos() <= (#[trigger] clip(a, n, x)[k]).min.pos()
                && clip(a, n, x)[k].max.pos() <= x.max.pos(),
        forall|p: int| #[trigger] seq_holds(clip(a, n, x), p) <==> (covers(a, n, p) && x.holds(p)),
    decreases n,
{
    if n == 0 {
        let none = clip(a, 0, x);
        assert forall|p: int| #[trigger] seq_holds(none, p) <==> (covers(a, 0, p)
            && x.holds(p)) by {
            if seq_holds(none, p) {
                let k = holder(none, none.len() as int, p);
            }
        }
    } else {
        lemma_clip(a, n - 1, x);
        let before = clip(a, n - 1, x);
        let part = piece(a[n - 1], x);
        let after = clip(a, n, x);
        lemma_covers_step(a, n - 1, n);
        assert(a[n - 1].valid());
        if n > 1 {
            assert(a[n - 2].max.pos() + 1 < a[n - 1].min.pos());
        }
        if part.valid() {
            lemma_push_ordered(before, part);
            lemma_push_holds(before, part);
        }
        assert forall|k: int| 0 <= k < after.len() implies (#[trigger] after[k]).max.pos() <= a[n
            - 1].max.pos() by {
            if k < before.len() {
                assert(after[k] == before[k]);
            }
        }
        assert forall|k: int| 0 <= k < after.len() implies x.min.pos() <= (
        #[trigger] after[k]).min.pos() && after[k].max.pos() <= x.max.pos() by {
            if k < before.len() {
                assert(after[k] == before[k]);
            }
        }
        assert forall|p: int| #[trigger] seq_holds(after, p) <==> (covers(a, n, p)
            && x.holds(p)) by {
            assert(seq_holds(before, p) <==> (covers(a, n - 1, p) && x.holds(p)));
            assert(covers(a, n, p) <==> (covers(a, n - 1, p) || a[n - 1].holds(p)));
            assert(seq_holds(after, p) <==> (seq_holds(before, p) || part.holds(p))) by {
                if part.valid() {
                    assert(seq_holds(before.push(part), p) <==> (seq_holds(before, p)
                        || part.holds(p)));
                }
            }
        }
    }
}

/// The intersection of a well-formed sequence with one range holds what
/// both hold.
pub proof fn lemma_intersection_with_range<T: MinMax>(a: Seq<Range<T>>, x: Range<T>)
    requires
        ordered(a),
    ensures
        is_intersection_of(intersection_of(a, single(x)), a, single(x)),
        forall|p: int| #[trigger]
            seq_holds(intersection_of(a, single(x)), p) <==> (seq_holds(a, p) && x.holds(p)),
{
    let n = a.len() as int;
    lemma_clip(a, n, x);
    lemma_single_holds(x);
    let c = clip(a, n, x);
    assert forall|p: int| #[trigger] seq_holds(c, p) <==> (seq_holds(a, p) && seq_holds(
        single(x),
        p,
    )) by {
        assert(seq_holds(c, p) <==> (covers(a, n, p) && x.holds(p)));
    }
    assert(is_intersection_of(c, a, single(x)));
    lemma_intersection_is(c, a, single(x));
}

/// Two well-formed sequences, the first of which ends below the second
/// with a position left out in between, make a well-formed sequence when
/// put one after the other, and it holds what either holds.
pub proof fn lemma_concat<T: MinMax>(s: Seq<Range<T>>, t: Seq<Range<T>>)
    requires
        ordered(s),
        ordered(t),
        forall|i: int, j: int|
            0 <= i < s.len() && 0 <= j < t.len() ==> (#[trigger] s[i]).max.pos() + 1 < (
            #[trigger] t[j]).min.pos(),
    ensures
        ordered(s + t),
        forall|p: int| #[trigger] seq_holds(s + t, p) <==> (seq_holds(s, p) || seq_holds(t, p)),
{
    let u = s + t;
    assert forall|k: int| 0 <= k < u.len() implies (#[trigger] u[k]).valid() by {
        if k < s.len() {
            assert(u[k] == s[k]);
        } else {
            assert(u[k] == t[k - s.len()]);
        }
    }
    assert forall|k: int, l: int| 0 <= k < l < u.len() implies (#[trigger] u[k]).max.pos() + 1 < (
    #[trigger] u[l]).min.pos() by {
        if l < s.len() {
            assert(u[k] == s[k]);
            assert(u[l] == s[l]);
        } else if k < s.len() {
            assert(u[k] == s[k]);
            assert(u[l] == t[l - s.len()]);
        } else {
            assert(u[k] == t[k - s.len()]);
            assert(u[l] == t[l - s.len()]);
        }
    }
    assert forall|p: int| #[trigger] seq_holds(u, p) <==> (seq_holds(s, p) || seq_holds(t, p)) by {
        if seq_holds(u, p) {
            let k = holder(u, u.len() as int, p);
            if k < s.len() {
                assert(s[k].holds(p));
            } else {
                assert(t[k - s.len()].holds(p));
            }
        }
        if seq_holds(s, p) {
            let k = holder(s, s.len() as int, p);
            assert(u[k].holds(p));
        }
        if seq_holds(t, p) {
            let k = holder(t, t.len() as int, p);
            assert(u[k + s.len()].holds(p));
        }
    }
}

/// The parts of `a` that lie in one of the first `m` ranges of `b`.
pub open spec fn clips<T: MinMax>(a: Seq<Range<T>>, b: Seq<Range<T>>, m: int) -> Seq<Range<T>>
    decreases m,
{
    if m <= 0 {
        Seq::empty()
    } else {
        clips(a, b, m - 1) + clip(a, a.len() as int, b[m - 1])
    }
}

/// The parts of `a` that lie in the first `m` ranges of `b` are
/// well-formed, end no higher than the last of these ranges, and hold what
/// both `a` and these ranges hold.
pub proof fn lemma_clips<T: MinMax>(a: Seq<Range<T>>, b: Seq<Range<T>>, m: int)
    requires
        ordered(a),
        ordered(b),
        0 <= m <= b.len(),
    ensures
        ordered(clips(a, b, m)),
        forall|k: int|
            0 <= k < clips(a, b, m).len() ==> m > 0 && (#[trigger] clips(a, b, m)[k]).max.pos()
                <= b[m - 1].max.pos(),
        forall|p: int| #[trigger] seq_holds(clips(a, b, m), p) <==> (seq_holds(a, p)
            && covers(b, m, p)),
    decreases m,
{
    if m == 0 {
        let none = clips(a, b, 0);
        assert forall|p: int| #[trigger] seq_holds(none, p) <==> (seq_holds(a, p)
            && covers(b, 0, p)) by {
            if seq_holds(none, p) {
                let k = holder(none, none.len() as int, p);
            }
        }
    } else {
        lemma_clips(a, b, m - 1);
        let x = b[m - 1];
        let before = clips(a, b, m - 1);
        let part = clip(a, a.len() as int, x);
        let after = clips(a, b, m);
        lemma_clip(a, a.len() as int, x);
        lemma_covers_step(b, m - 1, m);
        assert(x.valid());
        assert forall|i: int, j: int|
            0 <= i < before.len() && 0 <= j < part.len()
                implies (#[trigger] before[i]).max.pos() + 1 < (
        #[trigger] part[j]).min.pos() by {
            assert(b[m - 2].max.pos() + 1 < b[m - 1].min.pos());
        }
        lemma_concat(before, part);
        assert forall|k: int| 0 <= k < after.len() implies (#[trigger] after[k]).max.pos() <= b[m
            - 1].max.pos() by {
            if k < before.len() {
                assert(after[k] == before[k]);
                assert(b[m - 2].max.pos() + 1 < b[m - 1].min.pos());
            } else {
                assert(after[k] == part[k - before.len()]);
            }
        }
        assert forall|p: int| #[trigger] seq_holds(after, p) <==> (seq_holds(a, p)
            && covers(b, m, p)) by {
            assert(seq_holds(before, p) <==> (seq_holds(a, p) && covers(b, m - 1, p)));
            assert(seq_holds(part, p) <==> (covers(a, a.len() as int, p) && x.holds(p)));
            assert(covers(b, m, p) <==> (covers(b, m - 1, p) || x.holds(p)));
        }
    }
}

/// Two well-formed sequences have an intersection.
pub proof fn lemma_intersection_exists<T: MinMax>(a: Seq<Range<T>>, b: Seq<Range<T>>)
    requires
        ordered(a),
        ordered(b),
    ensures
        is_intersection_of(intersection_of(a, b), a, b),
{
    lemma_clips(a, b, b.len() as int);
    let c = clips(a, b, b.len() as int);
    assert forall|p: int| #[trigger] seq_holds(c, p) <==> (seq_holds(a, p) && seq_holds(b, p)) by {
        assert(seq_holds(c, p) <==> (seq_holds(a, p) && covers(b, b.len() as int, p)));
    }
    assert(is_intersection_of(c, a, b));
}

/// Two well-formed sequences have a union: the complement of what the
/// complements of the two have in common. The least and the greatest value
/// of the scalar are handed in.
pub proof fn lemma_union_exists<T: MinMax>(
    a: Seq<Range<T>>,
    b: Seq<Range<T>>,
    least: T,
    greatest: T,
)
    requires
        ordered(a),
        ordered(b),
        least.rank() == T::lowest(),
        greatest.rank() == T::highest(),
    ensures
        is_union_of(union_of(a, b), a, b),
{
    lemma_complement_exists(a, least, greatest);
    lemma_complement_exists(b, least, greatest);
    let ca = complement_of(a);
    let cb = complement_of(b);
    lemma_intersection_exists(ca, cb);
    let both = intersection_of(ca, cb);
    lemma_complement_exists(both, least, greatest);
    let u = complement_of(both);
    assert forall|p: int| #[trigger] seq_holds(u, p) <==> (seq_holds(a, p) || seq_holds(b, p)) by {
        assert(seq_holds(both, p) <==> (seq_holds(ca, p) && seq_holds(cb, p)));
        if seq_holds(a, p) {
            lemma_holds_in_bounds(a, p);
        }
        if seq_holds(b, p) {
            lemma_holds_in_bounds(b, p);
        }
    }
    assert(is_union_of(u, a, b));
}

} // verus!
