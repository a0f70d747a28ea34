//! Windows between neighbouring bounds, how many intervals are open over
//! each, and which window is the best.

use crate::bound::{BoundType, SourceBound};
use vstd::prelude::*;

verus! {

/// What a bound does to the number of open intervals: a lower bound opens
/// one, an upper bound closes one.
pub open spec fn step(b: SourceBound) -> int {
    if b.bound_type == BoundType::Lower {
        1
    } else {
        -1
    }
}

/// The number of intervals open just behind position `i` of `s`: the lower
/// bounds among `s[0..=i]` less the upper bounds among them.
pub open spec fn depth(s: Seq<SourceBound>, i: int) -> int
    decreases i + 1,
{
    if i < 0 {
        0
    } else {
        depth(s, i - 1) + step(s[i])
    }
}

/// The window at position `i` reaches from bound `i` to the bound behind it.
/// The last bound begins no window.
pub open spec fn is_window(s: Seq<SourceBound>, i: int) -> bool {
    0 <= i < s.len() - 1
}

/// The width of the window at position `i`.
pub open spec fn width(s: Seq<SourceBound>, i: int) -> int {
    s[i + 1].value - s[i].value
}

/// `true` when the window at `k` is the one to select: no window is deeper,
/// none of the same depth is narrower, and none of the same depth and width
/// stands before it.
pub open spec fn is_best_window(s: Seq<SourceBound>, k: int) -> bool {
    &&& is_window(s, k)
    &&& forall|i: int| is_window(s, i) ==> #[trigger] depth(s, i) <= depth(s, k)
    &&& forall|i: int|
        is_window(s, i) && #[trigger] depth(s, i) == depth(s, k) ==> width(s, k) <= width(s, i)
    &&& forall|i: int|
        0 <= i < k && #[trigger] depth(s, i) == depth(s, k) ==> width(s, k) < width(s, i)
}

/// The position of the window to select.
pub open spec fn best_window(s: Seq<SourceBound>) -> int {
    choose|k: int| is_best_window(s, k)
}

/// The best window among those at positions up to `i`, found by passing over
/// them from the left and keeping a later window only where it is deeper, or
/// as deep and narrower.
spec fn best_window_upto(s: Seq<SourceBound>, i: int) -> int
    decreases i,
{
    if i <= 0 {
        0
    } else {
        let k = best_window_upto(s, i - 1);
        if depth(s, i) > depth(s, k) || (depth(s, i) == depth(s, k) && width(s, i) < width(s, k)) {
            i
        } else {
            k
        }
    }
}

/// `best_window_upto` selects among the windows up to `i` as `is_best_window`
/// selects among all of them.
proof fn lemma_best_window_upto(s: Seq<SourceBound>, i: int)
    requires
        is_window(s, i),
    ensures
        0 <= best_window_upto(s, i) <= i,
        forall|p: int| 0 <= p <= i ==> #[trigger] depth(s, p) <= depth(s, best_window_upto(s, i)),
        forall|p: int|
            0 <= p <= i && #[trigger] depth(s, p) == depth(s, best_window_upto(s, i)) ==> width(
                s,
                best_window_upto(s, i),
            ) <= width(s, p),
        forall|p: int|
            0 <= p < best_window_upto(s, i) && #[trigger] depth(s, p) == depth(
                s,
                best_window_upto(s, i),
            ) ==> width(s, best_window_upto(s, i)) < width(s, p),
    decreases i,
{
    if i > 0 {
        lemma_best_window_upto(s, i - 1);
    }
}

/// Two or more bounds have a best window.
pub proof fn lemma_best_window_exists(s: Seq<SourceBound>)
    requires
        s.len() >= 2,
    ensures
        is_best_window(s, best_window(s)),
{
    lemma_best_window_upto(s, s.len() - 2);
    assert(is_best_window(s, best_window_upto(s, s.len() - 2)));
}

/// Bounds have one best window at most.
pub proof fn lemma_best_window_unique(s: Seq<SourceBound>, a: int, b: int)
    requires
        is_best_window(s, a),
        is_best_window(s, b),
    ensures
        a == b,
{
    assert(depth(s, a) <= depth(s, b));
    assert(depth(s, b) <= depth(s, a));
}

/// A window that is the best one is the window at `best_window`.
pub proof fn lemma_best_window_is(s: Seq<SourceBound>, k: int)
    requires
        is_best_window(s, k),
    ensures
        best_window(s) == k,
{
    lemma_best_window_unique(s, k, best_window(s));
}

/// The depth changes by one from each position to the next, so behind
/// position `i` it lies between `-(i + 1)` and `i + 1`.
pub proof fn lemma_depth_bounds(s: Seq<SourceBound>, i: int)
    requires
        -1 <= i,
    ensures
        -(i + 1) <= depth(s, i) <= i + 1,
    decreases i + 1,
{
    if i >= 0 {
        lemma_depth_bounds(s, i - 1);
    }
}

} // verus!
