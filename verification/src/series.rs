//! Shaping aggregates into plottable chart data: per-length series (unique
//! totals or growth ratios) and per-token occurrence series, each with the
//! y-axis upper bound the rendering backend needs. Drawing itself happens
//! outside this library.

use vstd::prelude::*;

use crate::aggregate::axis_upper_bound;
use crate::aggregate::axis_upper_bound_usize;
use crate::aggregate::growth_ratios;
use crate::aggregate::max_count;
use crate::aggregate::per_length_max;
use crate::aggregate::reference_scale;
use crate::aggregate::unique_counts;
use crate::aggregate::AggregateError;
use crate::corpus::CorpusSet;
use crate::corpus::EntryV;
use crate::corpus::FrequencyTable;
use crate::sanitize::sentinel_text;
use crate::sanitize::CustomDebugString;
use vstd::arithmetic::div_mod::lemma_div_non_zero;

verus! {

/// The larger of two values.
pub open spec fn max2(a: int, b: int) -> int {
    if a >= b {
        a
    } else {
        b
    }
}

/// The per-length chart values of one corpus: unique counts, or growth
/// ratios when `ratios` is set.
pub open spec fn length_values(c: (Seq<EntryV>, Seq<EntryV>, Seq<EntryV>), ratios: bool) -> (
    int,
    int,
    int,
) {
    if ratios {
        (1, c.1.len() as int / c.0.len() as int, c.2.len() as int / c.1.len() as int)
    } else {
        (c.0.len() as int, c.1.len() as int, c.2.len() as int)
    }
}

/// The largest of a corpus's three per-length chart values.
pub open spec fn tri_max(v: (int, int, int)) -> int {
    max2(max2(v.0, v.1), v.2)
}

/// The largest chart value over the subject and, when given, the reference.
pub open spec fn length_chart_max(
    subject: (Seq<EntryV>, Seq<EntryV>, Seq<EntryV>),
    reference: Option<(Seq<EntryV>, Seq<EntryV>, Seq<EntryV>)>,
    ratios: bool,
) -> int {
    match reference {
        Some(rc) => max2(tri_max(length_values(subject, ratios)), tri_max(length_values(rc, ratios))),
        None => tri_max(length_values(subject, ratios)),
    }
}

/// The view of a reference corpus argument.
pub open spec fn corpus_view_of(reference: Option<&CorpusSet>) -> Option<
    (Seq<EntryV>, Seq<EntryV>, Seq<EntryV>),
> {
    match reference {
        Some(rc) => Some(rc@),
        None => None,
    }
}

/// Three per-length points in length order, carrying the given values.
pub open spec fn length_points(points: Seq<(usize, usize)>, v: (int, int, int)) -> bool {
    &&& points.len() == 3
    &&& points[0].0 == 1 && points[0].1 == v.0
    &&& points[1].0 == 2 && points[1].1 == v.1
    &&& points[2].0 == 3 && points[2].1 == v.2
}

/// One per-length chart's data: subject points, reference points when a
/// reference corpus was given, and the y-axis upper bound.
pub struct LengthChart {
    pub subject: Vec<(usize, usize)>,
    pub reference: Option<Vec<(usize, usize)>>,
    pub y_upper: usize,
}

/// The largest value among a corpus's three per-length points.
fn points_max(v: &Vec<(usize, usize)>) -> (m: usize)
    requires
        v@.len() == 3,
    ensures
        m == tri_max((v@[0].1 as int, v@[1].1 as int, v@[2].1 as int)),
{
    let a = v[0].1;
    let b = v[1].1;
    let c = v[2].1;
    let ab = if a >= b {
        a
    } else {
        b
    };
    if ab >= c {
        ab
    } else {
        c
    }
}

/// Builds the by-length chart data for a corpus and an optional reference:
/// unique counts per length, or growth ratios between lengths when `ratios`
/// is set, with the y-axis bound covering both series.
pub fn build_length_chart(subject: &CorpusSet, reference: Option<&CorpusSet>, ratios: bool) -> (r:
    LengthChart)
    requires
        ratios ==> subject@.0.len() > 0 && subject@.1.len() > 0,
        ratios ==> (match reference {
            Some(rc) => rc@.0.len() > 0 && rc@.1.len() > 0,
            None => true,
        }),
        length_chart_max(subject@, corpus_view_of(reference), ratios) + length_chart_max(
            subject@,
            corpus_view_of(reference),
            ratios,
        ) / 10 <= usize::MAX,
    ensures
        length_points(r.subject@, length_values(subject@, ratios)),
        match reference {
            Some(rc) => (match r.reference {
                Some(p) => length_points(p@, length_values(rc@, ratios)),
                None => false,
            }),
            None => r.reference is None,
        },
        r.y_upper == length_chart_max(subject@, corpus_view_of(reference), ratios)
            + length_chart_max(subject@, corpus_view_of(reference), ratios) / 10,
{
    let subject_points = if ratios {
        growth_ratios(subject)
    } else {
        unique_counts(subject)
    };
    let subject_max = points_max(&subject_points);
    let (reference_points, chart_max): (Option<Vec<(usize, usize)>>, usize) = match reference {
        Some(rc) => {
            let p = if ratios {
                growth_ratios(rc)
            } else {
                unique_counts(rc)
            };
            let rmax = points_max(&p);
            let m = if subject_max >= rmax {
                subject_max
            } else {
                rmax
            };
            (Some(p), m)
        },
        None => (None, subject_max),
    };
    let y_upper = axis_upper_bound_usize(chart_max);
    LengthChart { subject: subject_points, reference: reference_points, y_upper }
}

/// The plottable points of one table for the per-token occurrence chart:
/// unrepresentable (sentinel) tokens are excluded, every other entry appears
/// in rank order with its count divided by the scaling divisor.
pub open spec fn token_points_of(s: Seq<EntryV>, d: u64) -> Seq<(Seq<char>, u64)>
    decreases s.len(),
{
    if s.len() == 0 {
        Seq::empty()
    } else {
        let rest = token_points_of(s.drop_last(), d);
        if s.last().1 == sentinel_text() {
            rest
        } else {
            rest.push((s.last().1, (s.last().0 as int / d as int) as u64))
        }
    }
}

/// The views of a vector of token points.
pub open spec fn point_views(s: Seq<(CustomDebugString, u64)>) -> Seq<(Seq<char>, u64)> {
    Seq::new(s.len(), |i: int| (s[i].0@, s[i].1))
}

/// Collects a table's non-sentinel entries as (token, count / divisor)
/// points, in rank order.
fn token_points(table: &FrequencyTable, divisor: u64) -> (r: Vec<(CustomDebugString, u64)>)
    requires
        divisor >= 1,
    ensures
        point_views(r@) == token_points_of(table@, divisor),
{
    let n = table.len();
    let mut r: Vec<(CustomDebugString, u64)> = Vec::new();
    let mut i: usize = 0;
    proof {
        assert(table@.subrange(0, 0) =~= Seq::<EntryV>::empty());
        assert(point_views(r@) =~= token_points_of(table@.subrange(0, 0), divisor));
    }
    while i < n
        invariant
            i <= n,
            n == table@.len(),
            divisor >= 1,
            point_views(r@) == token_points_of(table@.subrange(0, i as int), divisor),
        decreases n - i,
    {
        proof {
            assert(table@.subrange(0, i + 1).drop_last() =~= table@.subrange(0, i as int));
            assert(table@.subrange(0, i + 1).last() == table@[i as int]);
        }
        let token = table.token_at(i);
        let ghost prev = r@;
        if !token.is_sentinel() {
            let count = table.count_at(i);
            let cloned = token.clone();
            let value = count / divisor;
            r.push((cloned, value));
            proof {
                assert(point_views(prev).len() == prev.len());
                assert(r@ == prev.push((cloned, value)));
                assert(r@[prev.len() as int] == (cloned, value));
                assert forall|j: int|
                    0 <= j < r@.len() implies point_views(r@)[j] == token_points_of(
                    table@.subrange(0, i + 1),
                    divisor,
                )[j] by {
                    if j < prev.len() {
                        assert(r@[j] == prev[j]);
                        assert(point_views(prev)[j] == token_points_of(
                            table@.subrange(0, i as int),
                            divisor,
                        )[j]);
                    }
                }
                assert(point_views(r@) =~= token_points_of(table@.subrange(0, i + 1), divisor));
            }
        } else {
            proof {
                assert(point_views(r@) =~= token_points_of(table@.subrange(0, i + 1), divisor));
            }
        }
        i = i + 1;
    }
    proof {
        assert(table@.subrange(0, n as int) =~= table@);
    }
    r
}

/// One per-token chart's data: subject points, reference points scaled down
/// by the reference divisor when a reference table was given, and the
/// y-axis upper bound from the subject's maximum.
pub struct TokenChart {
    pub subject: Vec<(CustomDebugString, u64)>,
    pub reference: Option<Vec<(CustomDebugString, u64)>>,
    pub y_upper: u64,
}

/// Builds the per-token occurrence chart data for one n-gram length's table
/// and an optional reference table: sentinel tokens are excluded, reference
/// counts are pre-divided by the reference scale divisor, and the y-axis
/// bound comes from the subject's maximum count. Fails with `EmptyTable`
/// exactly when the subject table, or a given reference table, has no
/// entries.
pub fn build_token_chart(subject: &FrequencyTable, reference: Option<&FrequencyTable>) -> (r:
    Result<TokenChart, AggregateError>)
    requires
        max_count(subject@) + max_count(subject@) / 10 <= u64::MAX,
        match reference {
            Some(rt) => subject@.len() > 0 && rt@.len() > 0 ==> 0 < max_count(subject@)
                <= max_count(rt@),
            None => true,
        },
    ensures
        (r is Err) <==> (subject@.len() == 0 || (match reference {
            Some(rt) => rt@.len() == 0,
            None => false,
        })),
        r is Err ==> r == Err::<TokenChart, AggregateError>(AggregateError::EmptyTable),
        match r {
            Ok(chart) => {
                &&& point_views(chart.subject@) == token_points_of(subject@, 1)
                &&& chart.y_upper == max_count(subject@) + max_count(subject@) / 10
                &&& (match reference {
                    Some(rt) => (match chart.reference {
                        Some(p) => point_views(p@) == token_points_of(
                            rt@,
                            (max_count(rt@) as int / max_count(subject@) as int) as u64,
                        ),
                        None => false,
                    }),
                    None => chart.reference is None,
                })
            },
            Err(_) => true,
        },
{
    let subject_max = match per_length_max(subject) {
        Ok(m) => m,
        Err(e) => {
            return Err(e);
        },
    };
    let reference_points: Option<Vec<(CustomDebugString, u64)>> = match reference {
        Some(rt) => {
            let reference_max = match per_length_max(rt) {
                Ok(m) => m,
                Err(e) => {
                    return Err(e);
                },
            };
            let divisor = reference_scale(subject_max, reference_max);
            proof {
                lemma_div_non_zero(reference_max as int, subject_max as int);
            }
            Some(token_points(rt, divisor))
        },
        None => None,
    };
    let subject_points = token_points(subject, 1);
    let y_upper = axis_upper_bound(subject_max);
    Ok(TokenChart { subject: subject_points, reference: reference_points, y_upper })
}

} // verus!
