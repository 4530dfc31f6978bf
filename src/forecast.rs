use vstd::prelude::*;
use crate::aggregate::{ThreatenedData, SpeciesCategory, category_of_label};

verus! {

/// The latest year among the points.
pub open spec fn max_year(p: Seq<(u64, u64)>) -> u64
    decreases p.len(),
{
    if p.len() <= 1 {
        if p.len() == 1 {
            p[0].0
        } else {
            0
        }
    } else {
        let m = max_year(p.drop_last());
        if p.last().0 > m {
            p.last().0
        } else {
            m
        }
    }
}

/// Whether the points span at least two different years, which a straight-line fit needs.
pub open spec fn has_two_years(p: Seq<(u64, u64)>) -> bool {
    exists|i: int, j: int| 0 <= i < p.len() && 0 <= j < p.len() && p[i].0 != p[j].0
}

/// The `n` years that follow `last`, in order.
pub open spec fn years_after(last: u64, n: u64) -> Seq<u64> {
    Seq::new(n as nat, |i: int| (last + 1 + i) as u64)
}

/// The latest year among a non-empty list of points.
pub fn last_observed_year(points: &Vec<(u64, u64)>) -> (r: u64)
    requires
        points@.len() > 0,
    ensures
        r == max_year(points@),
        exists|i: int| 0 <= i < points@.len() && points@[i].0 == r,
        forall|i: int| 0 <= i < points@.len() ==> points@[i].0 <= r,
{
    let mut best: u64 = points[0].0;
    let mut i: usize = 1;
    assert(points@.subrange(0, 1).len() == 1);
    while i < points.len()
        invariant
            1 <= i <= points@.len(),
            best == max_year(points@.subrange(0, i as int)),
            exists|k: int| 0 <= k < i && points@[k].0 == best,
            forall|k: int| 0 <= k < i ==> points@[k].0 <= best,
        decreases points.len() - i,
    {
        assert(points@.subrange(0, i + 1).drop_last() =~= points@.subrange(0, i as int));
        if points[i].0 > best {
            best = points[i].0;
        }
        i = i + 1;
    }
    assert(points@.subrange(0, points.len() as int) =~= points@);
    best
}

/// Whether the points span at least two different years.
pub fn spans_two_years(points: &Vec<(u64, u64)>) -> (r: bool)
    ensures
        r == has_two_years(points@),
{
    if points.len() == 0 {
        return false;
    }
    let first = points[0].0;
    let mut i: usize = 1;
    while i < points.len()
        invariant
            1 <= i <= points@.len(),
            first == points@[0].0,
            forall|k: int| 0 <= k < i ==> points@[k].0 == first,
        decreases points.len() - i,
    {
        if points[i].0 != first {
            assert(points@[0].0 != points@[i as int].0);
            return true;
        }
        i = i + 1;
    }
    assert(!has_two_years(points@)) by {
        assert forall|a: int, b: int|
            0 <= a < points@.len() && 0 <= b < points@.len() implies points@[a].0
            == points@[b].0 by {
            assert(points@[a].0 == first);
            assert(points@[b].0 == first);
        }
    }
    false
}

/// The years to forecast: the `n` years right after `last`, contiguous and increasing.
pub fn forecast_years(last: u64, n: u64) -> (r: Vec<u64>)
    requires
        last + n <= u64::MAX,
    ensures
        r@ == years_after(last, n),
{
    let mut out: Vec<u64> = Vec::new();
    let mut i: u64 = 0;
    while i < n
        invariant
            i <= n,
            last + n <= u64::MAX,
            out@ == years_after(last, i),
        decreases n - i,
    {
        out.push(last + 1 + i);
        i = i + 1;
        assert(out@ =~= years_after(last, i));
    }
    out
}

fn copy_points(p: &Vec<(u64, u64)>) -> (r: Vec<(u64, u64)>)
    ensures
        r@ == p@,
{
    let mut out: Vec<(u64, u64)> = Vec::new();
    let mut i: usize = 0;
    while i < p.len()
        invariant
            i <= p@.len(),
            out@ == p@.subrange(0, i as int),
        decreases p.len() - i,
    {
        out.push(p[i]);
        i = i + 1;
        assert(out@ =~= p@.subrange(0, i as int));
    }
    assert(p@.subrange(0, p.len() as int) =~= p@);
    out
}

/// What a forecast request for one series needs: the points to fit and the years to predict.
#[derive(Clone, Debug)]
pub struct ForecastPlan {
    pub points: Vec<(u64, u64)>,
    pub last_year: u64,
    pub years: Vec<u64>,
}

/// The answer to a forecast request.
#[derive(Clone, Debug)]
pub enum ForecastQuery {
    /// The label names no category, or no series has the country and category.
    NoData,
    /// The series exists but does not span two different years.
    InsufficientHistory,
    /// The horizon is zero, or its years would run past the largest year that can be held.
    InvalidHorizon,
    Ready(ForecastPlan),
}

/// Looks up the series of a country and category label and lays out the forecast: a label
/// other than the four category labels, or a missing series, is "no data"; a series that does
/// not span two years, or a horizon that is zero or runs past `u64::MAX`, is a caller error;
/// otherwise the points, their latest year, and the `horizon` years after it.
pub fn plan_forecast(data: &ThreatenedData, country: &str, label: &str, horizon: u64) -> (r:
    ForecastQuery)
    requires
        data.keys_unique(),
    ensures
        ({
            match category_of_label(label@) {
                None => r is NoData,
                Some(c) => if !data.has_key(country@, c) {
                    r is NoData
                } else {
                    let p = data.points_of(country@, c);
                    if !has_two_years(p) {
                        r is InsufficientHistory
                    } else if horizon == 0 || max_year(p) + horizon > u64::MAX {
                        r is InvalidHorizon
                    } else {
                        r matches ForecastQuery::Ready(plan) && plan.points@ == p && plan.last_year
                            == max_year(p) && plan.years@ == years_after(max_year(p), horizon)
                    }
                },
            }
        }),
{
    let category = match SpeciesCategory::from_label(label) {
        Some(c) => c,
        None => {
            return ForecastQuery::NoData;
        },
    };
    let points = match data.get(country, category) {
        Some(p) => p,
        None => {
            return ForecastQuery::NoData;
        },
    };
    if !spans_two_years(points) {
        return ForecastQuery::InsufficientHistory;
    }
    let last = last_observed_year(points);
    if horizon == 0 || last > u64::MAX - horizon {
        return ForecastQuery::InvalidHorizon;
    }
    let years = forecast_years(last, horizon);
    ForecastQuery::Ready(ForecastPlan { points: copy_points(points), last_year: last, years })
}

} // verus!
