//! The statistics of one file: the bounds of the colour scale and the number
//! of amplitudes in a sweep.

use crate::binary32::{
    finite, greater, is_finite, lesser, max, min, rank, NEG_INFINITY, POS_INFINITY,
};
use vstd::prelude::*;

verus! {

/// Bounds and row width of a file. `min` and `max` are binary32 patterns.
#[derive(Clone, Copy, Debug, PartialEq, Eq, Structural)]
pub struct Summary {
    pub min: u32,
    pub max: u32,
    pub width: usize,
}

/// The lower bound after `b` has been merged into `a`: while `a` is finite
/// the lesser of the two, otherwise `b` outright.
pub open spec fn merged_min(a: u32, b: u32) -> u32 {
    if is_finite(a) {
        lesser(a, b)
    } else {
        b
    }
}

/// The upper bound after `b` has been merged into `a`: while `a` is finite
/// the greater of the two, otherwise `b` outright.
pub open spec fn merged_max(a: u32, b: u32) -> u32 {
    if is_finite(a) {
        greater(a, b)
    } else {
        b
    }
}

/// The lower bound after one amplitude has been seen. Only a finite amplitude
/// counts: an infinity or a not-a-number leaves the bound as it was.
pub open spec fn observed_min(cur: u32, val: u32) -> u32 {
    if is_finite(val) {
        merged_min(cur, val)
    } else {
        cur
    }
}

/// The upper bound after one amplitude has been seen. Only a finite amplitude
/// counts: an infinity or a not-a-number leaves the bound as it was.
pub open spec fn observed_max(cur: u32, val: u32) -> u32 {
    if is_finite(val) {
        merged_max(cur, val)
    } else {
        cur
    }
}

/// The lower bound of a run of amplitudes seen one after the other, starting
/// from `start`.
pub open spec fn min_over(start: u32, vals: Seq<u32>) -> u32
    decreases vals.len(),
{
    if vals.len() == 0 {
        start
    } else {
        observed_min(min_over(start, vals.drop_last()), vals.last())
    }
}

/// The upper bound of a run of amplitudes seen one after the other, starting
/// from `start`.
pub open spec fn max_over(start: u32, vals: Seq<u32>) -> u32
    decreases vals.len(),
{
    if vals.len() == 0 {
        start
    } else {
        observed_max(max_over(start, vals.drop_last()), vals.last())
    }
}

impl Summary {
    /// The summary of no data: the lower bound at positive infinity, the
    /// upper bound at negative infinity, no width.
    pub open spec fn spec_empty() -> Summary {
        Summary { min: POS_INFINITY, max: NEG_INFINITY, width: 0 }
    }

    /// A partial summary as the aggregation produces it: the lower bound is
    /// finite or still positive infinity, the upper bound is finite or still
    /// negative infinity.
    pub open spec fn well_formed(self) -> bool {
        &&& is_finite(self.min) || self.min == POS_INFINITY
        &&& is_finite(self.max) || self.max == NEG_INFINITY
    }

    /// What `update` returns.
    pub open spec fn spec_update(a: Summary, val: u32, width: usize) -> Summary {
        Summary { min: observed_min(a.min, val), max: observed_max(a.max, val), width }
    }

    /// What `combine` returns.
    pub open spec fn spec_combine(a: Summary, b: Summary) -> Summary {
        Summary {
            min: merged_min(a.min, b.min),
            max: merged_max(a.max, b.max),
            width: if a.width != 0 {
                a.width
            } else {
                b.width
            },
        }
    }

    /// What `single` returns.
    pub open spec fn spec_single(val: u32, width: usize) -> Summary {
        if is_finite(val) {
            Summary { min: val, max: val, width }
        } else {
            Summary { min: POS_INFINITY, max: NEG_INFINITY, width }
        }
    }

    /// The summary of no data.
    pub fn empty() -> (r: Summary)
        ensures
            r == Self::spec_empty(),
            r.well_formed(),
    {
        Summary { min: POS_INFINITY, max: NEG_INFINITY, width: 0 }
    }

    /// The degenerate summary of one amplitude: both bounds at that amplitude
    /// where it is finite, the summary of no data otherwise; with the width
    /// given.
    pub fn single(val: u32, width: usize) -> (r: Summary)
        ensures
            r == Self::spec_single(val, width),
            r.well_formed(),
    {
        if finite(val) {
            Summary { min: val, max: val, width }
        } else {
            Summary { min: POS_INFINITY, max: NEG_INFINITY, width }
        }
    }

    /// Takes one amplitude into the bounds and sets the width.
    pub fn update(a: Summary, val: u32, width: usize) -> (r: Summary)
        ensures
            r == Self::spec_update(a, val, width),
            a.well_formed() ==> r.well_formed(),
    {
        if finite(val) {
            Summary {
                min: if finite(a.min) {
                    min(a.min, val)
                } else {
                    val
                },
                max: if finite(a.max) {
                    max(a.max, val)
                } else {
                    val
                },
                width,
            }
        } else {
            Summary { min: a.min, max: a.max, width }
        }
    }

    /// Merges two partial summaries. The width is that of the left side
    /// unless it has none.
    pub fn combine(a: Summary, b: Summary) -> (r: Summary)
        ensures
            r == Self::spec_combine(a, b),
            a.well_formed() && b.well_formed() ==> r.well_formed(),
    {
        Summary {
            min: if finite(a.min) {
                min(a.min, b.min)
            } else {
                b.min
            },
            max: if finite(a.max) {
                max(a.max, b.max)
            } else {
                b.max
            },
            width: if a.width != 0 {
                a.width
            } else {
                b.width
            },
        }
    }
}

/// Two lower bounds merge to the same whichever comes first: both are
/// finite; or one is finite and the other is not negative infinity; or
/// neither is finite and they are the same.
pub open spec fn min_commutes(a: u32, b: u32) -> bool {
    if is_finite(a) {
        is_finite(b) || b != NEG_INFINITY
    } else if is_finite(b) {
        a != NEG_INFINITY
    } else {
        a == b
    }
}

/// Two upper bounds merge to the same whichever comes first: both are
/// finite; or one is finite and the other is not positive infinity; or
/// neither is finite and they are the same.
pub open spec fn max_commutes(a: u32, b: u32) -> bool {
    if is_finite(a) {
        is_finite(b) || b != POS_INFINITY
    } else if is_finite(b) {
        a != POS_INFINITY
    } else {
        a == b
    }
}

/// Three lower bounds merge to the same however they are grouped: unless the
/// first is finite, the second is negative infinity and the third would not
/// win against the first.
pub open spec fn min_associates(a: u32, b: u32, c: u32) -> bool {
    !(is_finite(a) && b == NEG_INFINITY && lesser(a, c) != c)
}

/// Three upper bounds merge to the same however they are grouped: unless the
/// first is finite, the second is positive infinity and the third would not
/// win against the first.
pub open spec fn max_associates(a: u32, b: u32, c: u32) -> bool {
    !(is_finite(a) && b == POS_INFINITY && greater(a, c) != c)
}

/// Merging is associative exactly where `min_associates` and
/// `max_associates` hold; for the width it always is.
pub proof fn lemma_combine_associative_where(a: Summary, b: Summary, c: Summary)
    ensures
        Summary::spec_combine(a, Summary::spec_combine(b, c)).min == Summary::spec_combine(
            Summary::spec_combine(a, b),
            c,
        ).min <==> min_associates(a.min, b.min, c.min),
        Summary::spec_combine(a, Summary::spec_combine(b, c)).max == Summary::spec_combine(
            Summary::spec_combine(a, b),
            c,
        ).max <==> max_associates(a.max, b.max, c.max),
        Summary::spec_combine(a, Summary::spec_combine(b, c)).width == Summary::spec_combine(
            Summary::spec_combine(a, b),
            c,
        ).width,
{
}

/// Merging is commutative in the bounds exactly where `min_commutes` and
/// `max_commutes` hold.
pub proof fn lemma_combine_commutative_where(a: Summary, b: Summary)
    ensures
        Summary::spec_combine(a, b).min == Summary::spec_combine(b, a).min <==> min_commutes(
            a.min,
            b.min,
        ),
        Summary::spec_combine(a, b).max == Summary::spec_combine(b, a).max <==> max_commutes(
            a.max,
            b.max,
        ),
{
}

/// Merging is associative on the partial summaries that the aggregation
/// produces: on well-formed summaries the grouping of the operands does not
/// matter, for the bounds and for the width.
pub proof fn lemma_combine_associative(a: Summary, b: Summary, c: Summary)
    requires
        a.well_formed(),
        b.well_formed(),
        c.well_formed(),
    ensures
        Summary::spec_combine(a, Summary::spec_combine(b, c)) == Summary::spec_combine(
            Summary::spec_combine(a, b),
            c,
        ),
{
}

/// Merging is commutative in the bounds on the partial summaries that the
/// aggregation produces: on well-formed summaries the order of the operands
/// does not matter for `min` and `max`.
pub proof fn lemma_combine_commutative(a: Summary, b: Summary)
    requires
        a.well_formed(),
        b.well_formed(),
    ensures
        Summary::spec_combine(a, b).min == Summary::spec_combine(b, a).min,
        Summary::spec_combine(a, b).max == Summary::spec_combine(b, a).max,
{
}

/// The summary of no data is neutral for the bounds on either side.
pub proof fn lemma_combine_empty(a: Summary)
    requires
        a.well_formed(),
    ensures
        Summary::spec_combine(Summary::spec_empty(), a) == a,
        Summary::spec_combine(a, Summary::spec_empty()).min == a.min,
        Summary::spec_combine(a, Summary::spec_empty()).max == a.max,
{
}

/// Taking one amplitude into a summary is merging with its degenerate
/// summary.
pub proof fn lemma_update_is_combine(a: Summary, val: u32, width: usize)
    requires
        a.well_formed(),
    ensures
        Summary::spec_update(a, val, width).min == Summary::spec_combine(
            a,
            Summary::spec_single(val, width),
        ).min,
        Summary::spec_update(a, val, width).max == Summary::spec_combine(
            a,
            Summary::spec_single(val, width),
        ).max,
{
}

/// What the bounds of a run of amplitudes are. Where no amplitude is finite
/// they stay open: positive infinity below, negative infinity above. Where
/// one is finite, both bounds are finite amplitudes of the run, no finite
/// amplitude lies below the lower or above the upper one, and the lower bound
/// is not above the upper.
pub proof fn lemma_bounds_enclose(vals: Seq<u32>)
    ensures
        (forall|i: int| 0 <= i < vals.len() ==> !is_finite(#[trigger] vals[i])) ==> min_over(
            POS_INFINITY,
            vals,
        ) == POS_INFINITY && max_over(NEG_INFINITY, vals) == NEG_INFINITY,
        (exists|i: int| 0 <= i < vals.len() && is_finite(#[trigger] vals[i])) ==> {
            let lo = min_over(POS_INFINITY, vals);
            let hi = max_over(NEG_INFINITY, vals);
            &&& is_finite(lo)
            &&& is_finite(hi)
            &&& rank(lo) <= rank(hi)
            &&& exists|i: int| 0 <= i < vals.len() && #[trigger] vals[i] == lo
            &&& exists|i: int| 0 <= i < vals.len() && #[trigger] vals[i] == hi
            &&& forall|i: int|
                0 <= i < vals.len() && is_finite(#[trigger] vals[i]) ==> rank(lo) <= rank(vals[i])
                    <= rank(hi)
        },
    decreases vals.len(),
{
    if vals.len() > 0 {
        let front = vals.drop_last();
        lemma_bounds_enclose(front);
        assert(forall|i: int| 0 <= i < front.len() ==> front[i] == vals[i]);
        assert(vals[vals.len() - 1] == vals.last());
        if exists|i: int| 0 <= i < front.len() && is_finite(#[trigger] front[i]) {
            let k = choose|i: int| 0 <= i < front.len() && is_finite(#[trigger] front[i]);
            let a = choose|i: int|
                0 <= i < front.len() && #[trigger] front[i] == min_over(POS_INFINITY, front);
            let b = choose|i: int|
                0 <= i < front.len() && #[trigger] front[i] == max_over(NEG_INFINITY, front);
            assert(is_finite(vals[k]));
            assert(vals[a] == min_over(POS_INFINITY, front));
            assert(vals[b] == max_over(NEG_INFINITY, front));
            assert forall|i: int| 0 <= i < vals.len() && is_finite(#[trigger] vals[i]) implies rank(
                min_over(POS_INFINITY, vals),
            ) <= rank(vals[i]) <= rank(max_over(NEG_INFINITY, vals)) by {
                if i < front.len() {
                    assert(is_finite(front[i]));
                }
            }
        } else {
            assert forall|i: int| 0 <= i < front.len() implies !is_finite(#[trigger] vals[i]) by {
                assert(!is_finite(front[i]));
            }
        }
    }
}

} // verus!
