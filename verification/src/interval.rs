//! The selected interval and the sweep that selects it.

use crate::bound::{at_most, in_order, precedes, BoundType, SourceBound};
use crate::error::{ErrorKind, MarzulloError};
use crate::sorting::{arranged, lemma_arranged, lemma_arranged_unique, sort_bounds};
use crate::window::{
    best_window, depth, is_best_window, is_window, lemma_best_window_is, lemma_depth_bounds, step,
    width,
};
use vstd::prelude::*;
use vstd::string::StringExecFns;

verus! {

/// The smallest interval consistent with the largest number of sources.
#[derive(PartialEq, Eq, Structural, Debug, Clone, Copy)]
pub struct Interval {
    /// Where the interval begins.
    pub lower_bound: i64,
    /// Where the interval ends; never before `lower_bound` in a selected
    /// interval.
    pub upper_bound: i64,
    /// The number of sources whose own interval holds this one.
    pub sources_true: u8,
    /// The number of the other sources.
    pub sources_false: u8,
}

/// Why a sweep refuses the bounds it is given.
#[derive(PartialEq, Eq, Structural, Debug, Clone, Copy)]
pub enum Refusal {
    /// The first bound is not a lower bound.
    FirstNotLower,
    /// Some bound stands before one that precedes it.
    OutOfOrder,
    /// The last bound is not an upper bound.
    LastNotUpper,
    /// More intervals are open over the best window than there are sources.
    TooDeep,
    /// The number of agreeing sources, or that of the others, is above 255.
    CountsTooLarge,
}

impl Refusal {
    /// The kind of error that reports this refusal.
    pub open spec fn kind(self) -> ErrorKind {
        match self {
            Refusal::FirstNotLower => ErrorKind::InvalidSourceBounds,
            Refusal::OutOfOrder => ErrorKind::InvalidSourceBoundsOrder,
            Refusal::LastNotUpper => ErrorKind::IntervalInvariant,
            Refusal::TooDeep => ErrorKind::IntervalInvariant,
            Refusal::CountsTooLarge => ErrorKind::IntervalInvariant,
        }
    }

    /// The message of the error that reports this refusal.
    pub open spec fn message(self) -> Seq<char> {
        match self {
            Refusal::FirstNotLower => "first bound should be a lower bound"@,
            Refusal::OutOfOrder => "expected each bound to be at most the bound behind it"@,
            Refusal::LastNotUpper => "expected last visited source bound to be an upper bound."@,
            Refusal::TooDeep => {
                "best count of overlapping intervals should be less than or equal to the number of sources."@
            },
            Refusal::CountsTooLarge => {
                "expected the counts of agreeing and of other sources to fit the interval's fields."@
            },
        }
    }

    /// Makes the error that reports this refusal.
    pub fn into_error(self) -> (e: MarzulloError)
        ensures
            reports(e, self),
    {
        match self {
            Refusal::FirstNotLower => MarzulloError::InvalidSourceBounds(
                String::from_str("first bound should be a lower bound"),
            ),
            Refusal::OutOfOrder => MarzulloError::InvalidSourceBoundsOrder(
                String::from_str("expected each bound to be at most the bound behind it"),
            ),
            Refusal::LastNotUpper => MarzulloError::IntervalInvariant(
                String::from_str("expected last visited source bound to be an upper bound."),
            ),
            Refusal::TooDeep => MarzulloError::IntervalInvariant(
                String::from_str(
                    "best count of overlapping intervals should be less than or equal to the number of sources.",
                ),
            ),
            Refusal::CountsTooLarge => MarzulloError::IntervalInvariant(
                String::from_str(
                    "expected the counts of agreeing and of other sources to fit the interval's fields.",
                ),
            ),
        }
    }
}

/// `true` when `e` is the error that reports the refusal `r`: it is of the
/// kind of `r` and carries the message of `r`.
pub open spec fn reports(e: MarzulloError, r: Refusal) -> bool {
    e.spec_kind() == r.kind() && e.spec_message() == r.message()
}

/// `true` when `res` is what a caller is handed for the outcome `outcome`:
/// the interval selected, or the error that reports the refusal.
pub open spec fn renders(
    res: Result<Interval, MarzulloError>,
    outcome: Result<Interval, Refusal>,
) -> bool {
    match res {
        Ok(interval) => outcome == Ok::<Interval, Refusal>(interval),
        Err(e) => outcome matches Err(r) && reports(e, r),
    }
}

/// The number of sources that `s` holds the bounds of: two bounds make one
/// source.
pub open spec fn source_count(s: Seq<SourceBound>) -> int {
    s.len() as int / 2
}

/// What the sweep over `s`, taken as it stands, comes to.
///
/// Fewer than two bounds describe no source, and the selection is the empty
/// interval at zero. Otherwise the bounds must begin with a lower bound, be in
/// order and end with an upper bound. The window selected is the best one of
/// `s`; its depth is the number of agreeing sources, which must not exceed
/// the number of sources, and both counts must fit the fields of `Interval`.
pub open spec fn sweep(s: Seq<SourceBound>) -> Result<Interval, Refusal> {
    let sources = source_count(s);
    if sources == 0 {
        Ok(Interval::spec_empty())
    } else if s.first().bound_type != BoundType::Lower {
        Err(Refusal::FirstNotLower)
    } else if !in_order(s) {
        Err(Refusal::OutOfOrder)
    } else if s.last().bound_type != BoundType::Upper {
        Err(Refusal::LastNotUpper)
    } else {
        let k = best_window(s);
        let agreeing = depth(s, k);
        if agreeing > sources {
            Err(Refusal::TooDeep)
        } else if agreeing > u8::MAX || sources - agreeing > u8::MAX {
            Err(Refusal::CountsTooLarge)
        } else {
            Ok(
                Interval {
                    lower_bound: s[k].value,
                    upper_bound: s[k + 1].value,
                    sources_true: agreeing as u8,
                    sources_false: (sources - agreeing) as u8,
                },
            )
        }
    }
}

/// What the selection from `s` comes to: the sweep over the bounds of `s`
/// put in order.
pub open spec fn select(s: Seq<SourceBound>) -> Result<Interval, Refusal> {
    sweep(arranged(s))
}

/// The order in which the bounds are given is irrelevant: two sequences that
/// hold the same bounds, each as often as the other, come to one selection.
pub proof fn law_order_is_irrelevant(a: Seq<SourceBound>, b: Seq<SourceBound>)
    requires
        a.to_multiset() == b.to_multiset(),
    ensures
        select(a) == select(b),
{
    lemma_arranged(b);
    lemma_arranged_unique(a, arranged(b));
}

/// The selection never fails for want of order, whatever the bounds are.
pub proof fn law_selection_is_swept_in_order(s: Seq<SourceBound>)
    ensures
        select(s) != Err::<Interval, Refusal>(Refusal::OutOfOrder),
{
    lemma_arranged(s);
}

/// What the sweep knows when it has passed the bounds before position `at`:
/// they are in order, `count` intervals are open, and, once a bound has been
/// passed, `chosen` is the window that the pass has kept, `best` its depth,
/// and `lower` and `upper` its ends.
///
/// The window kept is as deep as any window passed, and as narrow as any
/// window passed of its depth that ends at an upper bound; among the
/// narrowest of those it is the first.
spec fn swept(
    s: Seq<SourceBound>,
    at: int,
    count: int,
    best: int,
    chosen: int,
    lower: int,
    upper: int,
) -> bool {
    &&& 0 <= at <= s.len()
    &&& in_order(s.take(at))
    &&& count == depth(s, at - 1)
    &&& at == 0 ==> best == 0
    &&& at > 0 ==> {
        &&& is_window(s, chosen)
        &&& chosen < at
        &&& best == depth(s, chosen)
        &&& best >= 1
        &&& lower == s[chosen].value
        &&& upper == s[chosen + 1].value
        &&& forall|p: int| 0 <= p < at && is_window(s, p) ==> #[trigger] depth(s, p) <= best
        &&& forall|p: int|
            0 <= p < at && is_window(s, p) && #[trigger] depth(s, p) == best && s[p
                + 1].bound_type == BoundType::Upper ==> width(s, chosen) <= width(s, p) && (p
                < chosen ==> width(s, chosen) < width(s, p))
    }
}

/// When the whole of `s` has been swept and `s` ends with an upper bound, the
/// window kept is the best window of `s`.
proof fn lemma_swept_all(
    s: Seq<SourceBound>,
    count: int,
    best: int,
    chosen: int,
    lower: int,
    upper: int,
)
    requires
        s.len() >= 2,
        swept(s, s.len() as int, count, best, chosen, lower, upper),
        s.last().bound_type == BoundType::Upper,
    ensures
        in_order(s),
        is_best_window(s, chosen),
        best_window(s) == chosen,
{
    assert(s.take(s.len() as int) =~= s);
    assert forall|p: int| is_window(s, p) && #[trigger] depth(s, p) == depth(s, chosen) implies s[p
        + 1].bound_type == BoundType::Upper by {
        if p + 1 < s.len() - 1 {
            assert(is_window(s, p + 1));
            assert(depth(s, p + 1) <= best);
            assert(depth(s, p + 1) == depth(s, p) + step(s[p + 1]));
        }
    }
    lemma_best_window_is(s, chosen);
}

impl Interval {
    /// The interval selected where there is no source.
    pub open spec fn spec_empty() -> Interval {
        Interval { lower_bound: 0, upper_bound: 0, sources_true: 0, sources_false: 0 }
    }

    /// The interval selected where there is no source: it stands at zero and
    /// counts no source on either side.
    #[verifier::when_used_as_spec(spec_empty)]
    pub fn empty() -> (interval: Interval)
        ensures
            interval == Interval::spec_empty(),
    {
        Interval { lower_bound: 0, upper_bound: 0, sources_true: 0, sources_false: 0 }
    }

    /// Returns the smallest interval consistent with the largest number of
    /// sources.
    ///
    /// `source_bounds` holds, in any order, a lower and an upper bound for
    /// each source. The bounds are put in order and swept once; `select`
    /// says what comes of it. The bounds are in order when they are swept, so
    /// `InvalidSourceBoundsOrder` is never returned.
    ///
    /// In every interval returned the lower bound is not above the upper
    /// bound, and the two counts add up to the number of sources.
    pub fn try_from_source_bounds(source_bounds: Vec<SourceBound>) -> (res: Result<
        Interval,
        MarzulloError,
    >)
        ensures
            renders(res, select(source_bounds@)),
            source_count(source_bounds@) == 0 ==> res == Ok::<Interval, MarzulloError>(
                Interval::spec_empty(),
            ),
            res matches Err(e) ==> e.spec_kind() != ErrorKind::InvalidSourceBoundsOrder,
            res matches Ok(interval) ==> {
                &&& interval.lower_bound <= interval.upper_bound
                &&& interval.sources_true + interval.sources_false == source_count(source_bounds@)
                &&& 0 <= interval.sources_true <= source_count(source_bounds@)
            },
    {
        let sources: usize = source_bounds.len() / 2;
        proof {
            lemma_arranged(source_bounds@);
        }
        if sources == 0 {
            return Ok(Interval::empty());
        }
        let bounds = sort_bounds(&source_bounds);
        Interval::try_from_sorted_bounds(&bounds)
    }

    /// Sweeps bounds that are taken to be in order already, and returns the
    /// smallest interval consistent with the largest number of sources.
    ///
    /// `sweep` says what comes of it. Bounds that are not in order are
    /// refused with `InvalidSourceBoundsOrder`, unless they begin with an
    /// upper bound, which is refused first.
    pub fn try_from_sorted_bounds(bounds: &Vec<SourceBound>) -> (res: Result<
        Interval,
        MarzulloError,
    >)
        ensures
            renders(res, sweep(bounds@)),
            source_count(bounds@) == 0 ==> res == Ok::<Interval, MarzulloError>(
                Interval::spec_empty(),
            ),
            res matches Ok(interval) ==> {
                &&& interval.lower_bound <= interval.upper_bound
                &&& interval.sources_true + interval.sources_false == source_count(bounds@)
                &&& 0 <= interval.sources_true <= source_count(bounds@)
            },
    {
        let sources: usize = bounds.len() / 2;
        if sources == 0 {
            return Ok(Interval::empty());
        }
        if bounds[0].bound_type != BoundType::Lower {
            return Err(Refusal::FirstNotLower.into_error());
        }
        let last: usize = bounds.len() - 1;
        let mut best: i128 = 0;
        let mut count: i128 = 0;
        let mut lower: i64 = 0;
        let mut upper: i64 = 0;
        let ghost mut chosen: int = 0;
        let mut idx: usize = 0;
        proof {
            assert(bounds@.take(0) =~= Seq::<SourceBound>::empty());
        }
        while idx < bounds.len()
            invariant
                bounds@.len() >= 2,
                last == bounds@.len() - 1,
                bounds@[0].bound_type == BoundType::Lower,
                swept(
                    bounds@,
                    idx as int,
                    count as int,
                    best as int,
                    chosen,
                    lower as int,
                    upper as int,
                ),
            decreases bounds.len() - idx,
        {
            let bound = bounds[idx];
            let ghost s = bounds@;
            proof {
                lemma_depth_bounds(s, idx as int - 1);
                lemma_depth_bounds(s, idx as int);
            }
            // The bounds are taken to be in order: each is compared with the
            // one before it.
            if idx > 0 && bound.sorts_before(&bounds[idx - 1]) {
                proof {
                    assert(precedes(s[idx as int], s[idx - 1]));
                    assert(!at_most(s[idx - 1], s[idx as int]));
                }
                return Err(Refusal::OutOfOrder.into_error());
            }
            proof {
                let t = s.take(idx + 1);
                assert forall|i: int, j: int| 0 <= i < j < t.len() implies at_most(
                    #[trigger] t[i],
                    #[trigger] t[j],
                ) by {
                    let u = s.take(idx as int);
                    if j < idx {
                        assert(at_most(u[i], u[j]));
                    } else if i < idx - 1 {
                        assert(at_most(u[i], u[idx - 1]));
                        assert(at_most(s[idx - 1], s[idx as int]));
                    } else {
                        assert(at_most(s[idx - 1], s[idx as int]));
                    }
                }
            }
            // The number of intervals that are open behind this bound.
            match bound.bound_type {
                BoundType::Lower => {
                    count = count + 1;
                },
                BoundType::Upper => {
                    count = count - 1;
                },
            }
            // The last bound begins no window.
            if idx < last {
                let next = bounds[idx + 1];
                if count > best {
                    best = count;
                    lower = bound.value;
                    upper = next.value;
                    proof {
                        chosen = idx as int;
                    }
                } else if count == best && next.bound_type == BoundType::Upper {
                    // As many sources agree on this window as on the one
                    // kept. The narrower of the two is kept, and of two
                    // equally narrow ones the earlier.
                    let alternative: i128 = next.value as i128 - bound.value as i128;
                    if alternative < upper as i128 - lower as i128 {
                        lower = bound.value;
                        upper = next.value;
                        proof {
                            chosen = idx as int;
                        }
                    }
                }
            }
            idx = idx + 1;
        }
        if bounds[last].bound_type != BoundType::Upper {
            proof {
                assert(bounds@.take(bounds@.len() as int) =~= bounds@);
            }
            return Err(Refusal::LastNotUpper.into_error());
        }
        proof {
            lemma_swept_all(bounds@, count as int, best as int, chosen, lower as int, upper as int);
            assert(at_most(bounds@[chosen], bounds@[chosen + 1]));
        }
        if best > sources as i128 {
            return Err(Refusal::TooDeep.into_error());
        }
        // Both counts must fit the fields that hold them.
        if best > 255 || sources as i128 - best > 255 {
            return Err(Refusal::CountsTooLarge.into_error());
        }
        Ok(
            Interval {
                lower_bound: lower,
                upper_bound: upper,
                sources_true: best as u8,
                sources_false: (sources as i128 - best) as u8,
            },
        )
    }
}

} // verus!
