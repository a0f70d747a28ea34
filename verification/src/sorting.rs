//! Arranging bounds in the order of the sweep.

use crate::bound::{at_most, bound_order, in_order, lemma_order_is_total, SourceBound};
use vstd::prelude::*;
use vstd::relations::sorted_by;
use vstd::seq_lib::{lemma_multiset_commutative, lemma_sorted_unique, to_multiset_build, to_multiset_len};

verus! {

/// The bounds of `s` arranged in the order of the sweep.
pub open spec fn arranged(s: Seq<SourceBound>) -> Seq<SourceBound> {
    s.sort_by(bound_order())
}

/// `in_order` is sortedness by the order of the sweep.
pub proof fn lemma_in_order_is_sorted(s: Seq<SourceBound>)
    ensures
        in_order(s) <==> sorted_by(s, bound_order()),
{
    let r = bound_order();
    if in_order(s) {
        assert forall|i: int, j: int| 0 <= i < j < s.len() implies #[trigger] r(s[i], s[j]) by {
            assert(at_most(s[i], s[j]));
        }
    }
    if sorted_by(s, r) {
        assert forall|i: int, j: int| 0 <= i < j < s.len() implies at_most(
            #[trigger] s[i],
            #[trigger] s[j],
        ) by {
            assert(r(s[i], s[j]));
        }
    }
}

/// The arrangement holds the bounds that were given, each as often as it was
/// given, and holds them in order.
pub proof fn lemma_arranged(s: Seq<SourceBound>)
    ensures
        in_order(arranged(s)),
        arranged(s).to_multiset() == s.to_multiset(),
        arranged(s).len() == s.len(),
{
    lemma_order_is_total();
    s.lemma_sort_by_ensures(bound_order());
    lemma_in_order_is_sorted(arranged(s));
    to_multiset_len(s);
    to_multiset_len(arranged(s));
}

/// There is one way only to put given bounds in order.
pub proof fn lemma_arranged_unique(s: Seq<SourceBound>, t: Seq<SourceBound>)
    requires
        in_order(t),
        t.to_multiset() == s.to_multiset(),
    ensures
        t == arranged(s),
{
    lemma_order_is_total();
    lemma_arranged(s);
    lemma_in_order_is_sorted(t);
    lemma_in_order_is_sorted(arranged(s));
    lemma_sorted_unique(t, arranged(s), bound_order());
}

/// Merges two ordered runs into one.
fn merge(left: &Vec<SourceBound>, right: &Vec<SourceBound>) -> (out: Vec<SourceBound>)
    requires
        in_order(left@),
        in_order(right@),
    ensures
        in_order(out@),
        out@.to_multiset() == left@.to_multiset().add(right@.to_multiset()),
{
    let mut out: Vec<SourceBound> = Vec::new();
    let mut i: usize = 0;
    let mut j: usize = 0;
    proof {
        let none = Seq::<SourceBound>::empty();
        assert(left@.take(0) =~= none);
        assert(right@.take(0) =~= none);
        assert(out@ =~= none);
        assert(none + none =~= none);
        lemma_multiset_commutative(none, none);
    }
    while i < left.len() || j < right.len()
        invariant
            i <= left.len(),
            j <= right.len(),
            in_order(left@),
            in_order(right@),
            in_order(out@),
            out@.to_multiset() == left@.take(i as int).to_multiset().add(
                right@.take(j as int).to_multiset(),
            ),
            forall|p: int, q: int|
                0 <= p < out@.len() && i <= q < left@.len() ==> at_most(
                    #[trigger] out@[p],
                    #[trigger] left@[q],
                ),
            forall|p: int, q: int|
                0 <= p < out@.len() && j <= q < right@.len() ==> at_most(
                    #[trigger] out@[p],
                    #[trigger] right@[q],
                ),
        decreases left.len() - i + right.len() - j,
    {
        let from_left: bool = if i == left.len() {
            false
        } else if j == right.len() {
            true
        } else {
            !right[j].sorts_before(&left[i])
        };
        let ghost before = out@;
        if from_left {
            let next = left[i];
            proof {
                assert(left@.take(i + 1) =~= left@.take(i as int).push(next));
                to_multiset_build(left@.take(i as int), next);
                to_multiset_build(before, next);
                assert forall|q: int| j <= q < right@.len() implies at_most(
                    next,
                    #[trigger] right@[q],
                ) by {
                    assert(at_most(next, right@[j as int]));
                    assert(at_most(right@[j as int], right@[q]));
                }
            }
            out.push(next);
            i += 1;
        } else {
            let next = right[j];
            proof {
                assert(right@.take(j + 1) =~= right@.take(j as int).push(next));
                to_multiset_build(right@.take(j as int), next);
                to_multiset_build(before, next);
                assert forall|q: int| i <= q < left@.len() implies at_most(
                    next,
                    #[trigger] left@[q],
                ) by {
                    assert(at_most(next, left@[i as int]));
                    assert(at_most(left@[i as int], left@[q]));
                }
            }
            out.push(next);
            j += 1;
        }
        proof {
            assert(out@.to_multiset() =~= left@.take(i as int).to_multiset().add(
                right@.take(j as int).to_multiset(),
            ));
        }
    }
    proof {
        assert(left@.take(i as int) =~= left@);
        assert(right@.take(j as int) =~= right@);
    }
    out
}

/// Arranges the bounds `bounds[from..to]` by sorting each half and merging
/// the two.
fn sort_range(bounds: &Vec<SourceBound>, from: usize, to: usize) -> (out: Vec<SourceBound>)
    requires
        from <= to <= bounds.len(),
    ensures
        in_order(out@),
        out@.to_multiset() == bounds@.subrange(from as int, to as int).to_multiset(),
    decreases to - from,
{
    if to - from <= 1 {
        let mut out: Vec<SourceBound> = Vec::new();
        if from < to {
            out.push(bounds[from]);
        }
        proof {
            assert(out@ =~= bounds@.subrange(from as int, to as int));
        }
        out
    } else {
        let middle: usize = from + (to - from) / 2;
        let left = sort_range(bounds, from, middle);
        let right = sort_range(bounds, middle, to);
        proof {
            let a = bounds@.subrange(from as int, middle as int);
            let b = bounds@.subrange(middle as int, to as int);
            assert(a + b =~= bounds@.subrange(from as int, to as int));
            lemma_multiset_commutative(a, b);
        }
        merge(&left, &right)
    }
}

/// Returns the given bounds in the order of the sweep: by value, at one value
/// lower bounds before upper bounds, and bounds of one value and kind by
/// their source.
pub fn sort_bounds(bounds: &Vec<SourceBound>) -> (out: Vec<SourceBound>)
    ensures
        out@ == arranged(bounds@),
        out@.len() == bounds@.len(),
{
    let out = sort_range(bounds, 0, bounds.len());
    proof {
        assert(bounds@.subrange(0, bounds@.len() as int) =~= bounds@);
        lemma_arranged_unique(bounds@, out@);
        lemma_arranged(bounds@);
    }
    out
}

} // verus!
