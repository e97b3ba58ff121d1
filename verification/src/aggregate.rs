//! The statistics pass: one walk over the decoded rows that finds the bounds
//! of the colour scale and the width of a sweep. Two strategies compute it, a
//! running accumulator and a fold over the sweeps, and they agree.

use crate::binary32::{is_finite, NEG_INFINITY, POS_INFINITY};
use crate::measurement::{timestamp, Measurement, MeasurementView};
use crate::summary::{max_over, merged_max, merged_min, min_over, Summary};
use itertools::Itertools;
use vstd::prelude::*;

verus! {

/// Why a statistics pass gives no summary.
#[derive(Clone, Copy, Debug, PartialEq, Eq, Structural)]
pub enum AggregationError {
    /// There was no row, so no width could be established.
    NoRows,
    /// The first sweep holds more amplitudes than can be counted.
    WidthOverflow,
}

/// All amplitudes of the rows, in the order of the rows.
pub open spec fn samples_of(rows: Seq<MeasurementView>) -> Seq<u32>
    decreases rows.len(),
{
    if rows.len() == 0 {
        Seq::empty()
    } else {
        samples_of(rows.drop_last()) + rows.last().values
    }
}

/// The first index at or after `from` whose row does not carry the timestamp
/// of the first row; the number of rows where there is none.
pub open spec fn run_end(rows: Seq<MeasurementView>, from: int) -> int
    decreases rows.len() - from,
{
    if 0 <= from < rows.len() && timestamp(rows[from]) == timestamp(rows[0]) {
        run_end(rows, from + 1)
    } else {
        from
    }
}

/// The number of rows in the first sweep: the longest run of rows from the
/// start that share the first row's timestamp.
pub open spec fn first_run_len(rows: Seq<MeasurementView>) -> int {
    run_end(rows, 0)
}

/// The rows of the first sweep.
pub open spec fn first_run(rows: Seq<MeasurementView>) -> Seq<MeasurementView> {
    rows.take(first_run_len(rows))
}

/// The number of amplitudes in the first sweep.
pub open spec fn sweep_width(rows: Seq<MeasurementView>) -> nat {
    samples_of(first_run(rows)).len()
}

/// The summary that the running accumulator gives: the bounds over all
/// amplitudes in order, and the width of the first sweep.
pub open spec fn sequential_summary(rows: Seq<MeasurementView>) -> Result<
    Summary,
    AggregationError,
> {
    if rows.len() == 0 {
        Err(AggregationError::NoRows)
    } else if sweep_width(rows) > usize::MAX {
        Err(AggregationError::WidthOverflow)
    } else {
        Ok(
            Summary {
                min: min_over(POS_INFINITY, samples_of(rows)),
                max: max_over(NEG_INFINITY, samples_of(rows)),
                width: sweep_width(rows) as usize,
            },
        )
    }
}

/// `run_end` stays within the rows.
pub proof fn lemma_run_end_bounds(rows: Seq<MeasurementView>, from: int)
    requires
        0 <= from <= rows.len(),
    ensures
        from <= run_end(rows, from) <= rows.len(),
        rows.len() > 0 && from == 0 ==> run_end(rows, from) >= 1,
    decreases rows.len() - from,
{
    if from < rows.len() && timestamp(rows[from]) == timestamp(rows[0]) {
        lemma_run_end_bounds(rows, from + 1);
    }
}

/// The amplitudes of two stretches of rows laid end to end.
pub proof fn lemma_samples_concat(a: Seq<MeasurementView>, b: Seq<MeasurementView>)
    ensures
        samples_of(a + b) == samples_of(a) + samples_of(b),
    decreases b.len(),
{
    if b.len() == 0 {
        assert(a + b =~= a);
        assert(samples_of(a) + samples_of(b) =~= samples_of(a));
    } else {
        lemma_samples_concat(a, b.drop_last());
        assert((a + b).drop_last() =~= a + b.drop_last());
        assert((a + b).last() == b.last());
        assert(samples_of(a + b) =~= samples_of(a) + samples_of(b));
    }
}

/// A longer prefix of the rows holds no fewer amplitudes.
pub proof fn lemma_samples_prefix(rows: Seq<MeasurementView>, i: int, j: int)
    requires
        0 <= i <= j <= rows.len(),
    ensures
        samples_of(rows.take(i)).len() <= samples_of(rows.take(j)).len(),
{
    lemma_samples_concat(rows.take(i), rows.subrange(i, j));
    assert(rows.take(j) =~= rows.take(i) + rows.subrange(i, j));
}

/// The running accumulator: walks the rows once, takes every amplitude into
/// the bounds, and counts the amplitudes of the first sweep as the width.
pub fn preprocess(rows: &Vec<Measurement>) -> (r: Result<Summary, AggregationError>)
    ensures
        r == sequential_summary(rows.deep_view()),
{
    let ghost all = rows.deep_view();
    if rows.len() == 0 {
        return Err(AggregationError::NoRows);
    }
    let first_key = rows[0].timestamp_key();
    let mut sum = Summary::empty();
    let mut width: usize = 0;
    let mut open = true;
    let mut i: usize = 0;
    while i < rows.len()
        invariant
            0 <= i <= rows.len(),
            all == rows.deep_view(),
            all.len() == rows.len(),
            all.len() > 0,
            first_key@ == timestamp(all[0]),
            sum.min == min_over(POS_INFINITY, samples_of(all.take(i as int))),
            sum.max == max_over(NEG_INFINITY, samples_of(all.take(i as int))),
            open ==> run_end(all, 0) == run_end(all, i as int),
            open ==> width == samples_of(all.take(i as int)).len(),
            !open ==> width == sweep_width(all),
        decreases rows.len() - i,
    {
        let row = &rows[i];
        assert(all[i as int] == row@);
        let ghost before = samples_of(all.take(i as int));
        proof {
            assert(all.take(i + 1).drop_last() =~= all.take(i as int));
            assert(all.take(i + 1).last() == all[i as int]);
            assert(samples_of(all.take(i + 1)) == before + row@.values);
        }
        if open {
            let key = row.timestamp_key();
            if key == first_key {
                if row.values.len() > usize::MAX - width {
                    proof {
                        lemma_run_end_bounds(all, i + 1);
                        lemma_samples_prefix(all, i + 1, run_end(all, 0));
                    }
                    return Err(AggregationError::WidthOverflow);
                }
                width = width + row.values.len();
            } else {
                open = false;
                proof {
                    assert(run_end(all, i as int) == i);
                }
            }
        }
        let mut j: usize = 0;
        while j < row.values.len()
            invariant
                0 <= j <= row.values.len(),
                sum.min == min_over(POS_INFINITY, before + row@.values.take(j as int)),
                sum.max == max_over(NEG_INFINITY, before + row@.values.take(j as int)),
            decreases row.values.len() - j,
        {
            proof {
                let ghost cur = before + row@.values.take(j as int);
                let ghost next = before + row@.values.take(j + 1);
                assert(next.drop_last() =~= cur);
                assert(next.last() == row@.values[j as int]);
            }
            sum = Summary::update(sum, row.values[j], 0);
            j = j + 1;
        }
        proof {
            assert(row@.values.take(row@.values.len() as int) =~= row@.values);
        }
        i = i + 1;
    }
    proof {
        assert(all.take(all.len() as int) =~= all);
        if open {
            assert(run_end(all, all.len() as int) == all.len());
        }
    }
    Ok(Summary { min: sum.min, max: sum.max, width })
}

/// The rows cut into sweeps: the longest runs of neighbouring rows that share
/// a timestamp, in the order of the rows.
pub open spec fn runs(rows: Seq<MeasurementView>) -> Seq<Seq<MeasurementView>>
    decreases rows.len(),
    via runs_decreases
{
    if rows.len() == 0 {
        Seq::empty()
    } else {
        seq![first_run(rows)] + runs(rows.skip(first_run_len(rows)))
    }
}

#[via_fn]
proof fn runs_decreases(rows: Seq<MeasurementView>) {
    lemma_run_end_bounds(rows, 0);
}

/// The partial summary of one sweep: the bounds over its amplitudes and their
/// number.
pub open spec fn group_summary(group: Seq<MeasurementView>) -> Summary {
    Summary {
        min: min_over(POS_INFINITY, samples_of(group)),
        max: max_over(NEG_INFINITY, samples_of(group)),
        width: samples_of(group).len() as usize,
    }
}

/// The partial summaries of the sweeps merged into `acc`, one after the
/// other.
pub open spec fn folded(acc: Summary, groups: Seq<Seq<MeasurementView>>) -> Summary
    decreases groups.len(),
{
    if groups.len() == 0 {
        acc
    } else {
        folded(Summary::spec_combine(acc, group_summary(groups[0])), groups.skip(1))
    }
}

/// The summary that the fold over the sweeps gives: the bounds merged from
/// the partial summaries of the sweeps, and the number of amplitudes in the
/// first of them.
pub open spec fn grouped_summary(rows: Seq<MeasurementView>) -> Result<
    Summary,
    AggregationError,
> {
    if rows.len() == 0 {
        Err(AggregationError::NoRows)
    } else if samples_of(runs(rows)[0]).len() > usize::MAX {
        Err(AggregationError::WidthOverflow)
    } else {
        Ok(
            Summary {
                min: folded(Summary::spec_empty(), runs(rows)).min,
                max: folded(Summary::spec_empty(), runs(rows)).max,
                width: samples_of(runs(rows)[0]).len() as usize,
            },
        )
    }
}

/// Seeing two stretches of amplitudes one after the other is seeing them
/// laid end to end.
pub proof fn lemma_bounds_concat(lo: u32, hi: u32, a: Seq<u32>, b: Seq<u32>)
    ensures
        min_over(lo, a + b) == min_over(min_over(lo, a), b),
        max_over(hi, a + b) == max_over(max_over(hi, a), b),
    decreases b.len(),
{
    if b.len() == 0 {
        assert(a + b =~= a);
    } else {
        lemma_bounds_concat(lo, hi, a, b.drop_last());
        assert((a + b).drop_last() =~= a + b.drop_last());
        assert((a + b).last() == b.last());
    }
}

/// Bounds that start well-formed stay well-formed.
pub proof fn lemma_bounds_well_formed(lo: u32, hi: u32, vals: Seq<u32>)
    requires
        is_finite(lo) || lo == POS_INFINITY,
        is_finite(hi) || hi == NEG_INFINITY,
    ensures
        is_finite(min_over(lo, vals)) || min_over(lo, vals) == POS_INFINITY,
        is_finite(max_over(hi, vals)) || max_over(hi, vals) == NEG_INFINITY,
    decreases vals.len(),
{
    if vals.len() > 0 {
        lemma_bounds_well_formed(lo, hi, vals.drop_last());
    }
}

/// Merging the bounds of a stretch of amplitudes into well-formed bounds is
/// seeing that stretch from those bounds on.
pub proof fn lemma_bounds_merge(lo: u32, hi: u32, vals: Seq<u32>)
    requires
        is_finite(lo) || lo == POS_INFINITY,
        is_finite(hi) || hi == NEG_INFINITY,
    ensures
        merged_min(lo, min_over(POS_INFINITY, vals)) == min_over(lo, vals),
        merged_max(hi, max_over(NEG_INFINITY, vals)) == max_over(hi, vals),
    decreases vals.len(),
{
    if vals.len() > 0 {
        lemma_bounds_merge(lo, hi, vals.drop_last());
        lemma_bounds_well_formed(POS_INFINITY, NEG_INFINITY, vals.drop_last());
        lemma_bounds_well_formed(lo, hi, vals.drop_last());
    }
}

/// Folding the sweeps of the rows into a well-formed summary gives the
/// bounds of seeing every amplitude of the rows in order.
pub proof fn lemma_folded_bounds(acc: Summary, rows: Seq<MeasurementView>)
    requires
        acc.well_formed(),
    ensures
        folded(acc, runs(rows)).min == min_over(acc.min, samples_of(rows)),
        folded(acc, runs(rows)).max == max_over(acc.max, samples_of(rows)),
    decreases rows.len(),
{
    if rows.len() > 0 {
        lemma_run_end_bounds(rows, 0);
        let head = first_run(rows);
        let rest = rows.skip(first_run_len(rows));
        let next = Summary::spec_combine(acc, group_summary(head));
        assert(runs(rows)[0] == head);
        assert(runs(rows).skip(1) =~= runs(rest));
        lemma_bounds_merge(acc.min, acc.max, samples_of(head));
        lemma_bounds_well_formed(acc.min, acc.max, samples_of(head));
        lemma_folded_bounds(next, rest);
        assert(rows =~= head + rest);
        lemma_samples_concat(head, rest);
        lemma_bounds_concat(acc.min, acc.max, samples_of(head), samples_of(rest));
    }
}

/// The two strategies agree: on every sequence of rows the running
/// accumulator and the fold over the sweeps give the same bounds and the same
/// width, or fail alike.
pub proof fn lemma_strategies_agree(rows: Seq<MeasurementView>)
    ensures
        sequential_summary(rows) == grouped_summary(rows),
{
    if rows.len() > 0 {
        assert(runs(rows)[0] == first_run(rows));
        lemma_folded_bounds(Summary::spec_empty(), rows);
    }
}

/// Cuts the rows into sweeps with `Itertools::group_by`, keyed by
/// `Measurement::timestamp_key`, and gathers each group into a vector.
/// Trusted: the groups are the longest runs of neighbouring rows with equal
/// keys, in order, each row a copy of the one it stands for.
#[verifier::external_body]
fn group_rows(rows: &Vec<Measurement>) -> (groups: Vec<Vec<Measurement>>)
    ensures
        groups.deep_view() == runs(rows.deep_view()),
{
    rows.iter()
        .group_by(|m| m.timestamp_key())
        .into_iter()
        .map(|(_, group)| group.cloned().collect())
        .collect()
}

/// Lays the amplitudes of a sweep end to end.
pub fn flatten_values(group: &Vec<Measurement>) -> (vals: Vec<u32>)
    ensures
        vals@ == samples_of(group.deep_view()),
{
    let ghost all = group.deep_view();
    let mut vals: Vec<u32> = Vec::new();
    let mut i: usize = 0;
    while i < group.len()
        invariant
            0 <= i <= group.len(),
            all == group.deep_view(),
            all.len() == group.len(),
            vals@ == samples_of(all.take(i as int)),
        decreases group.len() - i,
    {
        let row = &group[i];
        assert(all[i as int] == row@);
        let ghost before = vals@;
        proof {
            assert(all.take(i + 1).drop_last() =~= all.take(i as int));
            assert(all.take(i + 1).last() == all[i as int]);
        }
        let mut j: usize = 0;
        while j < row.values.len()
            invariant
                0 <= j <= row.values.len(),
                vals@ == before + row@.values.take(j as int),
            decreases row.values.len() - j,
        {
            vals.push(row.values[j]);
            proof {
                assert(vals@ =~= before + row@.values.take(j + 1));
            }
            j = j + 1;
        }
        proof {
            assert(row@.values.take(row@.values.len() as int) =~= row@.values);
        }
        i = i + 1;
    }
    proof {
        assert(all.take(all.len() as int) =~= all);
    }
    vals
}

/// Takes a stretch of amplitudes into a summary, one after the other. The
/// width becomes the length of the stretch unless the stretch is empty.
pub fn fold_vals(sum: Summary, vals: &Vec<u32>) -> (r: Summary)
    ensures
        r.min == min_over(sum.min, vals@),
        r.max == max_over(sum.max, vals@),
        r.width == if vals@.len() == 0 {
            sum.width
        } else {
            vals.len()
        },
{
    let width = vals.len();
    let mut acc = sum;
    let mut j: usize = 0;
    while j < vals.len()
        invariant
            0 <= j <= vals.len(),
            width == vals.len(),
            acc.min == min_over(sum.min, vals@.take(j as int)),
            acc.max == max_over(sum.max, vals@.take(j as int)),
            acc.width == if j == 0 {
                sum.width
            } else {
                width
            },
        decreases vals.len() - j,
    {
        proof {
            assert(vals@.take(j + 1).drop_last() =~= vals@.take(j as int));
            assert(vals@.take(j + 1).last() == vals@[j as int]);
        }
        acc = Summary::update(acc, vals[j], width);
        j = j + 1;
    }
    proof {
        assert(vals@.take(vals@.len() as int) =~= vals@);
    }
    acc
}

/// The fold over the sweeps: cuts the rows into sweeps, summarises each sweep
/// by itself, and merges the partial summaries. The width is the number of
/// amplitudes in the first sweep.
pub fn preprocess_iter(rows: &Vec<Measurement>) -> (r: Result<Summary, AggregationError>)
    ensures
        r == grouped_summary(rows.deep_view()),
        r == sequential_summary(rows.deep_view()),
{
    let ghost all = rows.deep_view();
    proof {
        lemma_strategies_agree(all);
    }
    if rows.len() == 0 {
        return Err(AggregationError::NoRows);
    }
    let groups = group_rows(rows);
    let ghost gs = groups.deep_view();
    assert(gs.len() >= 1);
    assert(gs.skip(0) =~= gs);
    let mut acc = Summary::empty();
    let mut width: usize = 0;
    let mut i: usize = 0;
    while i < groups.len()
        invariant
            0 <= i <= groups.len(),
            gs == groups.deep_view(),
            gs.len() == groups.len(),
            acc.well_formed(),
            folded(acc, gs.skip(i as int)) == folded(Summary::spec_empty(), gs),
            i > 0 ==> width == samples_of(gs[0]).len(),
        decreases groups.len() - i,
    {
        let vals = flatten_values(&groups[i]);
        assert(groups[i as int].deep_view() == gs[i as int]);
        let part = fold_vals(Summary::empty(), &vals);
        proof {
            lemma_bounds_well_formed(POS_INFINITY, NEG_INFINITY, vals@);
            assert(part == group_summary(gs[i as int]));
            assert(gs.skip(i as int)[0] == gs[i as int]);
            assert(gs.skip(i as int).skip(1) =~= gs.skip(i + 1));
        }
        if i == 0 {
            width = vals.len();
        }
        acc = Summary::combine(acc, part);
        i = i + 1;
    }
    Ok(Summary { min: acc.min, max: acc.max, width })
}

} // verus!
