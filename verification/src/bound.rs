//! The endpoints of the sources' intervals and the total order in which the
//! sweep visits them.

use std::cmp::Ordering;
use vstd::prelude::*;
use vstd::std_specs::cmp::PartialEqSpecImpl;
use vstd::std_specs::cmp::PartialOrdSpecImpl;

verus! {

/// Which end of a source's interval a bound marks.
#[derive(PartialEq, Eq, Structural, PartialOrd, Ord, Debug, Clone, Copy)]
pub enum BoundType {
    Lower,
    Upper,
}

/// One endpoint of the interval claimed by one source.
///
/// The fields are declared in the order in which they are compared: first the
/// value, next the kind (a lower bound before an upper bound), last the source.
#[derive(Debug, Clone, Copy, Ord)]
pub struct SourceBound {
    /// The offset that the bound stands at.
    pub value: i64,
    /// Whether the interval begins or ends here.
    pub bound_type: BoundType,
    /// The index of the clock source in the list of clock sources.
    pub source: u8,
}

/// `true` when `a` lies strictly before `b` in the order of the sweep.
///
/// Bounds are ordered by value. At one value a lower bound comes before an
/// upper bound, so that two intervals that merely touch count as overlapping.
/// Bounds of one value and one kind are ordered by their source, which makes
/// the order total.
pub open spec fn precedes(a: SourceBound, b: SourceBound) -> bool {
    ||| a.value < b.value
    ||| a.value == b.value && a.bound_type == BoundType::Lower && b.bound_type == BoundType::Upper
    ||| a.value == b.value && a.bound_type == b.bound_type && a.source < b.source
}

/// `true` when `a` is `b` or lies before it.
pub open spec fn at_most(a: SourceBound, b: SourceBound) -> bool {
    a == b || precedes(a, b)
}

/// The order of the sweep as a relation, for the sequence library.
pub open spec fn bound_order() -> spec_fn(SourceBound, SourceBound) -> bool {
    |a: SourceBound, b: SourceBound| at_most(a, b)
}

/// `true` when no bound of `s` stands before one that precedes it.
pub open spec fn in_order(s: Seq<SourceBound>) -> bool {
    forall|i: int, j: int| 0 <= i < j < s.len() ==> at_most(#[trigger] s[i], #[trigger] s[j])
}

impl SourceBound {
    /// Decides whether this bound lies strictly before `other`.
    pub fn sorts_before(&self, other: &SourceBound) -> (r: bool)
        ensures
            r == precedes(*self, *other),
    {
        if self.value != other.value {
            self.value < other.value
        } else if self.bound_type == other.bound_type {
            self.source < other.source
        } else {
            self.bound_type == BoundType::Lower
        }
    }
}

/// Two bounds are equal when they agree in value and kind. The source takes
/// no part in equality; it only breaks ties in the order.
impl PartialEq for SourceBound {
    fn eq(&self, other: &Self) -> (r: bool) {
        self.value == other.value && self.bound_type == other.bound_type
    }
}

impl PartialEqSpecImpl for SourceBound {
    open spec fn obeys_eq_spec() -> bool {
        true
    }

    open spec fn eq_spec(&self, other: &Self) -> bool {
        self.value == other.value && self.bound_type == other.bound_type
    }
}

impl Eq for SourceBound {}

impl PartialOrd for SourceBound {
    fn partial_cmp(&self, other: &Self) -> (r: Option<Ordering>) {
        if self.sorts_before(other) {
            Some(Ordering::Less)
        } else if other.sorts_before(self) {
            Some(Ordering::Greater)
        } else {
            Some(Ordering::Equal)
        }
    }
}

impl PartialOrdSpecImpl for SourceBound {
    open spec fn obeys_partial_cmp_spec() -> bool {
        true
    }

    open spec fn partial_cmp_spec(&self, other: &Self) -> Option<Ordering> {
        if precedes(*self, *other) {
            Some(Ordering::Less)
        } else if precedes(*other, *self) {
            Some(Ordering::Greater)
        } else {
            Some(Ordering::Equal)
        }
    }
}

/// The order of the sweep is total: any two bounds are comparable, and only a
/// bound and itself are each at most the other.
pub proof fn lemma_order_is_total()
    ensures
        vstd::relations::total_ordering(bound_order()),
{
    let r = bound_order();
    assert forall|x: SourceBound, y: SourceBound| #[trigger] r(x, y) && #[trigger] r(y, x) implies x == y by {
        lemma_same_key(x, y);
    }
    assert forall|x: SourceBound, y: SourceBound| #[trigger] r(x, y) || #[trigger] r(y, x) by {
        lemma_same_key(x, y);
    }
}

/// Bounds that agree in all three fields are one bound, and a bound is of
/// one of the two kinds.
proof fn lemma_same_key(a: SourceBound, b: SourceBound)
    ensures
        a.value == b.value && a.bound_type == b.bound_type && a.source == b.source ==> a == b,
        a.bound_type == BoundType::Lower || a.bound_type == BoundType::Upper,
{
}

} // verus!
