//! Sources that each claim one whole interval, and what the selection means
//! for them.

use crate::bound::{at_most, in_order, BoundType, SourceBound};
use crate::interval::{select, source_count, Refusal};
use crate::sorting::{arranged, lemma_arranged};
use crate::window::{best_window, depth, is_window, lemma_best_window_exists};
use vstd::prelude::*;
use vstd::set_lib::{lemma_int_range, lemma_len_subset, set_int_range};

verus! {

/// The interval that one source claims.
pub struct Span {
    /// The least offset that the source holds possible.
    pub lower: i64,
    /// The greatest offset that the source holds possible.
    pub upper: i64,
}

/// The bound of the given kind of source `j`.
pub open spec fn bound_of(spans: Seq<Span>, j: int, kind: BoundType) -> SourceBound {
    SourceBound {
        value: if kind == BoundType::Lower {
            spans[j].lower
        } else {
            spans[j].upper
        },
        bound_type: kind,
        source: j as u8,
    }
}

/// The bounds of all sources: those of source 0 first, and of each source the
/// lower bound before the upper bound.
pub open spec fn bounds_of(spans: Seq<Span>) -> Seq<SourceBound> {
    Seq::new(
        2 * spans.len(),
        |p: int|
            bound_of(
                spans,
                p / 2,
                if p % 2 == 0 {
                    BoundType::Lower
                } else {
                    BoundType::Upper
                },
            ),
    )
}

/// Sources are numbered by a `u8`, so there are 256 at most, and no interval
/// ends before it begins.
pub open spec fn well_formed(spans: Seq<Span>) -> bool {
    &&& spans.len() <= 256
    &&& forall|j: int| 0 <= j < spans.len() ==> (#[trigger] spans[j]).lower <= spans[j].upper
}

/// `true` when `s` holds, in any order, the two bounds of each source and
/// nothing else.
pub open spec fn holds_bounds_of(s: Seq<SourceBound>, spans: Seq<Span>) -> bool {
    s.to_multiset() == bounds_of(spans).to_multiset()
}

/// The sources whose interval holds the point `x`.
pub open spec fn covering(spans: Seq<Span>, x: int) -> Set<int> {
    Set::new(|j: int| 0 <= j < spans.len() && spans[j].lower <= x <= spans[j].upper)
}

/// The sources whose interval holds all of the interval from `lower` to
/// `upper`.
pub open spec fn containing(spans: Seq<Span>, lower: int, upper: int) -> Set<int> {
    Set::new(|j: int| 0 <= j < spans.len() && spans[j].lower <= lower && upper <= spans[j].upper)
}

/// `true` when `t` holds the bounds of the sources in order, each once.
spec fn placed(spans: Seq<Span>, t: Seq<SourceBound>) -> bool {
    &&& in_order(t)
    &&& t.len() == 2 * spans.len()
    &&& t.no_duplicates()
    &&& forall|j: int, kind: BoundType|
        0 <= j < spans.len() ==> t.contains(#[trigger] bound_of(spans, j, kind))
    &&& forall|p: int|
        0 <= p < t.len() ==> (#[trigger] t[p]).source < spans.len() && t[p] == bound_of(
            spans,
            t[p].source as int,
            t[p].bound_type,
        )
}

/// Where in `t` the bound `x` stands.
spec fn position(t: Seq<SourceBound>, x: SourceBound) -> int {
    choose|p: int| 0 <= p < t.len() && t[p] == x
}

/// The sources whose interval is open behind position `i` of `t`: the lower
/// bound has been passed and the upper bound has not.
spec fn open_at(spans: Seq<Span>, t: Seq<SourceBound>, i: int) -> Set<int> {
    Set::new(
        |j: int|
            0 <= j < spans.len() && position(t, bound_of(spans, j, BoundType::Lower)) <= i
                < position(t, bound_of(spans, j, BoundType::Upper)),
    )
}

/// The bounds of the sources, as `bounds_of` lists them, are all different.
proof fn lemma_bounds_of(spans: Seq<Span>)
    requires
        well_formed(spans),
    ensures
        bounds_of(spans).no_duplicates(),
        bounds_of(spans).len() == 2 * spans.len(),
        forall|j: int, kind: BoundType|
            0 <= j < spans.len() ==> bounds_of(spans).contains(#[trigger] bound_of(spans, j, kind)),
        forall|p: int|
            0 <= p < bounds_of(spans).len() ==> (#[trigger] bounds_of(spans)[p]).source
                < spans.len() && bounds_of(spans)[p] == bound_of(
                spans,
                bounds_of(spans)[p].source as int,
                bounds_of(spans)[p].bound_type,
            ),
{
    let b = bounds_of(spans);
    assert forall|j: int, kind: BoundType| 0 <= j < spans.len() implies b.contains(
        #[trigger] bound_of(spans, j, kind),
    ) by {
        if kind == BoundType::Lower {
            assert(b[2 * j] == bound_of(spans, j, kind));
        } else {
            assert(b[2 * j + 1] == bound_of(spans, j, kind));
        }
    }
    assert forall|p: int, q: int| 0 <= p < b.len() && 0 <= q < b.len() && p != q implies b[p]
        != b[q] by {
        if p / 2 == q / 2 {
            assert(b[p].bound_type != b[q].bound_type);
        } else {
            assert(b[p].source != b[q].source);
        }
    }
}

/// Put in order, the bounds of well-formed sources are placed.
proof fn lemma_placed(spans: Seq<Span>, s: Seq<SourceBound>, t: Seq<SourceBound>)
    requires
        well_formed(spans),
        holds_bounds_of(s, spans),
        in_order(t),
        t.to_multiset() == s.to_multiset(),
    ensures
        placed(spans, t),
{
    let b = bounds_of(spans);
    lemma_bounds_of(spans);
    b.to_multiset_ensures();
    t.to_multiset_ensures();
    b.lemma_multiset_has_no_duplicates();
    t.lemma_multiset_has_no_duplicates_conv();
    assert forall|j: int, kind: BoundType| 0 <= j < spans.len() implies t.contains(
        #[trigger] bound_of(spans, j, kind),
    ) by {
        let x = bound_of(spans, j, kind);
        assert(b.contains(x));
        assert(b.to_multiset().count(x) > 0);
    }
    assert forall|p: int| 0 <= p < t.len() implies (#[trigger] t[p]).source < spans.len() && t[p]
        == bound_of(spans, t[p].source as int, t[p].bound_type) by {
        let x = t[p];
        assert(t.contains(x));
        assert(t.to_multiset().count(x) > 0);
        assert(b.contains(x));
        let q = choose|q: int| 0 <= q < b.len() && b[q] == x;
        assert(b[q] == x);
    }
}

/// Each source has its lower bound at one position of `t` and its upper bound
/// at a later one.
proof fn lemma_positions(spans: Seq<Span>, t: Seq<SourceBound>, j: int)
    requires
        well_formed(spans),
        placed(spans, t),
        0 <= j < spans.len(),
    ensures
        0 <= position(t, bound_of(spans, j, BoundType::Lower)) < position(
            t,
            bound_of(spans, j, BoundType::Upper),
        ) < t.len(),
        t[position(t, bound_of(spans, j, BoundType::Lower))] == bound_of(
            spans,
            j,
            BoundType::Lower,
        ),
        t[position(t, bound_of(spans, j, BoundType::Upper))] == bound_of(
            spans,
            j,
            BoundType::Upper,
        ),
{
    let lo = bound_of(spans, j, BoundType::Lower);
    let hi = bound_of(spans, j, BoundType::Upper);
    assert(t.contains(lo));
    assert(t.contains(hi));
    let pl = position(t, lo);
    let pu = position(t, hi);
    assert(spans[j].lower <= spans[j].upper);
    if pu < pl {
        assert(at_most(t[pu], t[pl]));
    }
}

/// A bound stands at its position and nowhere else.
proof fn lemma_position_of(spans: Seq<Span>, t: Seq<SourceBound>, p: int)
    requires
        well_formed(spans),
        placed(spans, t),
        0 <= p < t.len(),
    ensures
        position(t, t[p]) == p,
        0 <= t[p].source < spans.len(),
        t[p] == bound_of(spans, t[p].source as int, t[p].bound_type),
{
    let q = position(t, t[p]);
    assert(0 <= q < t.len() && t[q] == t[p]);
}

/// The depth behind a position is the number of sources whose interval is
/// open there.
proof fn lemma_depth_counts_open(spans: Seq<Span>, t: Seq<SourceBound>, i: int)
    requires
        well_formed(spans),
        placed(spans, t),
        -1 <= i < t.len(),
    ensures
        open_at(spans, t, i).finite(),
        open_at(spans, t, i).subset_of(set_int_range(0, spans.len() as int)),
        depth(t, i) == open_at(spans, t, i).len(),
    decreases i + 1,
{
    let n = spans.len() as int;
    lemma_int_range(0, n);
    let now = open_at(spans, t, i);
    assert(now.subset_of(set_int_range(0, n)));
    lemma_len_subset(now, set_int_range(0, n));
    if i < 0 {
        assert forall|j: int| !now.contains(j) by {
            if 0 <= j < n {
                lemma_positions(spans, t, j);
            }
        }
        assert(now =~= Set::<int>::empty());
    } else {
        lemma_depth_counts_open(spans, t, i - 1);
        let before = open_at(spans, t, i - 1);
        lemma_position_of(spans, t, i);
        let j = t[i].source as int;
        lemma_positions(spans, t, j);
        assert forall|k: int| 0 <= k < n && k != j implies (now.contains(k) <==> before.contains(
            k,
        )) by {
            lemma_positions(spans, t, k);
            let pl = position(t, bound_of(spans, k, BoundType::Lower));
            let pu = position(t, bound_of(spans, k, BoundType::Upper));
            assert(t[pl].source != t[i].source);
            assert(t[pu].source != t[i].source);
        }
        if t[i].bound_type == BoundType::Lower {
            assert(now =~= before.insert(j));
        } else {
            assert(now =~= before.remove(j));
        }
    }
}

/// `true` when the sweep over a point `x` has passed the bound `b`: bounds
/// below `x`, and lower bounds at `x`.
spec fn passed_at(b: SourceBound, x: int) -> bool {
    b.value < x || (b.value == x && b.bound_type == BoundType::Lower)
}

/// The number of bounds among the first `k` of `t` up to the last one that
/// the sweep over `x` has passed.
spec fn reach(t: Seq<SourceBound>, x: int, k: int) -> int
    decreases k,
{
    if k <= 0 {
        0
    } else if passed_at(t[k - 1], x) {
        k
    } else {
        reach(t, x, k - 1)
    }
}

/// Of bounds in order, the sweep over `x` has passed the first `reach` and
/// no other.
proof fn lemma_reach(t: Seq<SourceBound>, x: int, k: int)
    requires
        in_order(t),
        0 <= k <= t.len(),
    ensures
        0 <= reach(t, x, k) <= k,
        forall|p: int| 0 <= p < k ==> (passed_at(#[trigger] t[p], x) <==> p < reach(t, x, k)),
    decreases k,
{
    if k > 0 {
        lemma_reach(t, x, k - 1);
        if passed_at(t[k - 1], x) {
            assert forall|p: int| 0 <= p < k implies passed_at(#[trigger] t[p], x) by {
                if p < k - 1 {
                    assert(at_most(t[p], t[k - 1]));
                }
            }
        }
    }
}

/// Every source whose interval is open over a window holds each point of the
/// window, so at least as many sources hold the point as the window is deep.
proof fn lemma_window_is_covered(spans: Seq<Span>, t: Seq<SourceBound>, i: int, x: int)
    requires
        well_formed(spans),
        placed(spans, t),
        is_window(t, i),
        t[i].value <= x <= t[i + 1].value,
    ensures
        covering(spans, x).finite(),
        open_at(spans, t, i).subset_of(covering(spans, x)),
        depth(t, i) <= covering(spans, x).len() <= spans.len(),
{
    let n = spans.len() as int;
    lemma_int_range(0, n);
    lemma_depth_counts_open(spans, t, i);
    let open = open_at(spans, t, i);
    let holding = covering(spans, x);
    assert(holding.subset_of(set_int_range(0, n)));
    lemma_len_subset(holding, set_int_range(0, n));
    assert forall|j: int| open.contains(j) implies holding.contains(j) by {
        lemma_positions(spans, t, j);
        let pl = position(t, bound_of(spans, j, BoundType::Lower));
        let pu = position(t, bound_of(spans, j, BoundType::Upper));
        if pl < i {
            assert(at_most(t[pl], t[i]));
        }
        if i + 1 < pu {
            assert(at_most(t[i + 1], t[pu]));
        }
    }
    assert(open.subset_of(holding));
    lemma_len_subset(open, holding);
}

/// The sources that hold a point are open behind the last bound that the
/// sweep over the point has passed, so no more sources hold the point than
/// some position is deep. Returns that position, or -1 where no bound has
/// been passed.
proof fn lemma_cover_is_open(spans: Seq<Span>, t: Seq<SourceBound>, x: int) -> (i: int)
    requires
        well_formed(spans),
        placed(spans, t),
    ensures
        -1 <= i < t.len(),
        covering(spans, x).finite(),
        covering(spans, x).len() <= depth(t, i),
{
    let c = reach(t, x, t.len() as int);
    lemma_reach(t, x, t.len() as int);
    let i = c - 1;
    lemma_depth_counts_open(spans, t, i);
    let open = open_at(spans, t, i);
    let holding = covering(spans, x);
    assert forall|j: int| holding.contains(j) implies open.contains(j) by {
        lemma_positions(spans, t, j);
        let pl = position(t, bound_of(spans, j, BoundType::Lower));
        let pu = position(t, bound_of(spans, j, BoundType::Upper));
        assert(passed_at(t[pl], x));
        assert(!passed_at(t[pu], x));
    }
    assert(holding.subset_of(open));
    lemma_len_subset(holding, open);
    i
}

/// Behind the last bound no interval is open.
proof fn lemma_closed_at_end(spans: Seq<Span>, t: Seq<SourceBound>)
    requires
        well_formed(spans),
        placed(spans, t),
    ensures
        depth(t, t.len() - 1) == 0,
{
    let last = t.len() - 1;
    lemma_depth_counts_open(spans, t, last);
    assert forall|j: int| !open_at(spans, t, last).contains(j) by {
        if 0 <= j < spans.len() {
            lemma_positions(spans, t, j);
        }
    }
    assert(open_at(spans, t, last) =~= Set::<int>::empty());
}

/// The bounds of whole intervals begin with a lower bound and end with an
/// upper bound.
proof fn lemma_ends(spans: Seq<Span>, t: Seq<SourceBound>)
    requires
        well_formed(spans),
        placed(spans, t),
        spans.len() >= 1,
    ensures
        t.len() >= 2,
        t.first().bound_type == BoundType::Lower,
        t.last().bound_type == BoundType::Upper,
{
    lemma_position_of(spans, t, 0);
    lemma_positions(spans, t, t[0].source as int);
    lemma_position_of(spans, t, t.len() - 1);
    lemma_positions(spans, t, t[t.len() - 1].source as int);
}

/// The number of agreeing sources is the greatest number of sources that
/// hold one point.
///
/// Let `s` hold, in any order, the bounds of well-formed sources. The
/// selection from `s` succeeds, unless there are 256 sources that all hold
/// one point, whose number no `u8` can hold. In the interval selected the
/// lower bound is not above the upper bound, and the two counts add up to
/// the number of sources. No point is held by more sources than
/// `sources_true`, each point of the interval selected is held by exactly
/// `sources_true` of them, and as many hold the whole of it.
pub proof fn law_agreement_is_greatest_overlap(spans: Seq<Span>, s: Seq<SourceBound>)
    requires
        well_formed(spans),
        holds_bounds_of(s, spans),
    ensures
        source_count(s) == spans.len(),
        match select(s) {
            Ok(interval) => {
                &&& interval.lower_bound <= interval.upper_bound
                &&& interval.sources_true + interval.sources_false == spans.len()
                &&& 0 <= interval.sources_true <= spans.len()
                &&& forall|x: int| #[trigger] covering(spans, x).len() <= interval.sources_true
                &&& forall|x: int|
                    interval.lower_bound <= x <= interval.upper_bound ==> #[trigger] covering(
                        spans,
                        x,
                    ).len() == interval.sources_true
                &&& containing(
                    spans,
                    interval.lower_bound as int,
                    interval.upper_bound as int,
                ).len() == interval.sources_true
            },
            Err(refusal) => {
                &&& refusal == Refusal::CountsTooLarge
                &&& spans.len() == 256
                &&& exists|x: int| #[trigger] covering(spans, x).len() == 256
            },
        },
{
    let t = arranged(s);
    let n = spans.len() as int;
    lemma_arranged(s);
    lemma_placed(spans, s, t);
    if n == 0 {
        assert forall|x: int| #[trigger] covering(spans, x).len() == 0 by {
            assert(covering(spans, x) =~= Set::<int>::empty());
        }
        assert(containing(spans, 0, 0) =~= Set::<int>::empty());
    } else {
        lemma_ends(spans, t);
        lemma_best_window_exists(t);
        let k = best_window(t);
        let agreeing = depth(t, k);
        assert(depth(t, 0) == 1) by {
            reveal_with_fuel(depth, 2);
        }
        assert(is_window(t, 0));
        assert(depth(t, 0) <= agreeing);
        assert(at_most(t[k], t[k + 1]));
        lemma_window_is_covered(spans, t, k, t[k].value as int);
        lemma_closed_at_end(spans, t);
        assert forall|x: int| #[trigger] covering(spans, x).len() <= agreeing by {
            let i = lemma_cover_is_open(spans, t, x);
            if is_window(t, i) {
                assert(depth(t, i) <= depth(t, k));
            }
        }
        assert forall|x: int| t[k].value <= x <= t[k + 1].value implies #[trigger] covering(
            spans,
            x,
        ).len() == agreeing by {
            lemma_window_is_covered(spans, t, k, x);
        }
        assert(containing(spans, t[k].value as int, t[k + 1].value as int).len() == agreeing) by {
            let open = open_at(spans, t, k);
            let whole = containing(spans, t[k].value as int, t[k + 1].value as int);
            let first = covering(spans, t[k].value as int);
            lemma_window_is_covered(spans, t, k, t[k + 1].value as int);
            lemma_depth_counts_open(spans, t, k);
            assert(open.subset_of(whole));
            assert(whole.subset_of(first));
            lemma_len_subset(whole, first);
            lemma_len_subset(open, whole);
        }
        if agreeing > 255 {
            assert(covering(spans, t[k].value as int).len() == 256);
        }
    }
}

/// Two intervals overlap when they share a point; to touch is enough.
pub open spec fn overlap(a: Span, b: Span) -> bool {
    a.lower <= b.upper && b.lower <= a.upper
}

/// `true` when `group` is a set of sources of which any two overlap.
pub open spec fn is_clique(spans: Seq<Span>, group: Set<int>) -> bool {
    &&& forall|j: int| group.contains(j) ==> 0 <= j < spans.len()
    &&& forall|i: int, j: int|
        group.contains(i) && group.contains(j) ==> overlap(#[trigger] spans[i], #[trigger] spans[j])
}

/// Intervals of which any two overlap all hold one point: the greatest of
/// their lower bounds. Returns the source that it belongs to.
proof fn lemma_clique_shares_point(spans: Seq<Span>, group: Set<int>) -> (m: int)
    requires
        well_formed(spans),
        is_clique(spans, group),
        group.finite(),
        group.len() > 0,
    ensures
        group.contains(m),
        group.subset_of(covering(spans, spans[m].lower as int)),
    decreases group.len(),
{
    let j = group.choose();
    let rest = group.remove(j);
    assert(overlap(spans[j], spans[j]));
    if rest.len() == 0 {
        assert(rest =~= Set::<int>::empty());
        assert forall|i: int| group.contains(i) implies i == j by {
            if i != j {
                assert(rest.contains(i));
            }
        }
        j
    } else {
        let m = lemma_clique_shares_point(spans, rest);
        let pick = if spans[j].lower <= spans[m].lower {
            m
        } else {
            j
        };
        let x = spans[pick].lower as int;
        assert forall|i: int| group.contains(i) implies covering(spans, x).contains(i) by {
            assert(overlap(spans[i], spans[j]));
            assert(overlap(spans[i], spans[m]));
            assert(overlap(spans[j], spans[m]));
            if i != j {
                assert(rest.contains(i));
                assert(covering(spans, spans[m].lower as int).contains(i));
            }
        }
        pick
    }
}

/// The number of agreeing sources is the size of the largest group of
/// sources of which any two overlap.
///
/// Let `s` hold, in any order, the bounds of well-formed sources, and let the
/// selection from `s` succeed. No group of sources of which any two overlap
/// has more than `sources_true` members, and the sources that hold the lower
/// bound of the interval selected are such a group of `sources_true` members.
pub proof fn law_agreement_is_largest_clique(
    spans: Seq<Span>,
    s: Seq<SourceBound>,
    group: Set<int>,
)
    requires
        well_formed(spans),
        holds_bounds_of(s, spans),
        select(s) is Ok,
        is_clique(spans, group),
    ensures
        group.finite(),
        group.len() <= select(s)->Ok_0.sources_true,
        is_clique(spans, covering(spans, select(s)->Ok_0.lower_bound as int)),
        covering(spans, select(s)->Ok_0.lower_bound as int).len() == select(s)->Ok_0.sources_true,
{
    let n = spans.len() as int;
    let interval = select(s)->Ok_0;
    law_agreement_is_greatest_overlap(spans, s);
    lemma_int_range(0, n);
    assert(group.subset_of(set_int_range(0, n)));
    lemma_len_subset(group, set_int_range(0, n));
    if group.len() > 0 {
        let m = lemma_clique_shares_point(spans, group);
        let holding = covering(spans, spans[m].lower as int);
        assert(holding.subset_of(set_int_range(0, n)));
        lemma_len_subset(holding, set_int_range(0, n));
        lemma_len_subset(group, holding);
    }
    assert(covering(spans, interval.lower_bound as int).len() == interval.sources_true);
}

} // verus!
