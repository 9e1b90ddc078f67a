//! Which readings are kept, and how they are asked for and put on a chart.
use crate::paths;
use vstd::prelude::*;

verus! {

/// For how many days readings are kept, unless the settings say otherwise.
pub const DEFAULT_RETENTION_DAYS: i64 = 30;

/// For how many days readings are kept when so many are asked for.
pub open spec fn days_kept(asked: int) -> int {
    at_least_one(asked)
}

/// What was asked for is kept, but no less than a day: nothing that was read today is dropped.
pub proof fn law_a_day_is_always_kept(asked: int)
    ensures
        days_kept(asked) >= 1,
        asked >= 1 ==> days_kept(asked) == asked,
        asked < 1 ==> days_kept(asked) == 1,
{
}

/// For how many days readings are kept when so many are asked for: at least for one, as none or
/// fewer would put the limit into the future and drop everything.
pub fn retention_days(keep_days: i64) -> (r: i64)
    ensures
        r == days_kept(keep_days as int),
        r == if keep_days < 1 {
            1
        } else {
            keep_days
        },
{
    if keep_days < 1 {
        1
    } else {
        keep_days
    }
}

/// The longest span, in seconds, for which every reading is shown.
pub const RAW_SPAN: i64 = 3600;

/// How the readings of a span are asked for.
#[derive(Debug, Clone, Copy, PartialEq, Eq, Structural)]
pub enum GraphQuery {
    /// Every reading.
    Raw,
    /// Averages over buckets of so many seconds.
    Buckets(i64),
}

pub open spec fn at_least_one(n: int) -> int {
    if n < 1 {
        1
    } else {
        n
    }
}

pub open spec fn query_for(seconds: int, bucket_seconds: Option<i64>, graph_points: int) -> GraphQuery {
    match bucket_seconds {
        Some(b) => GraphQuery::Buckets(at_least_one(b as int) as i64),
        None => if seconds <= RAW_SPAN {
            GraphQuery::Raw
        } else {
            GraphQuery::Buckets(at_least_one(seconds / graph_points) as i64)
        },
    }
}

/// A size of buckets that is asked for is taken as it is, if it is one. Where none is, an hour or
/// less has none, and the buckets of a longer span are as great as they can be with a bucket for
/// each point, but a second at least.
pub proof fn law_buckets_fit_the_points(seconds: i64, b: i64, points: i64)
    requires
        points > 0,
    ensures
        b >= 1 ==> query_for(seconds as int, Some(b), points as int) == GraphQuery::Buckets(b),
        b < 1 ==> query_for(seconds as int, Some(b), points as int) == GraphQuery::Buckets(1),
        seconds <= 3600 ==> query_for(seconds as int, None, points as int) == GraphQuery::Raw,
        seconds > 3600 ==> (query_for(seconds as int, None, points as int) matches GraphQuery::Buckets(n) && {
            &&& n >= 1
            &&& points <= seconds ==> n * points <= seconds && seconds < (n + 1) * points
            &&& points > seconds ==> n == 1
        }),
{
    let q = seconds as int / points as int;
    if seconds > 3600 {
        assert(q * points <= seconds && seconds < (q + 1) * points && 0 <= q <= seconds) by (nonlinear_arith)
            requires
                q == seconds as int / points as int,
                points > 0,
                seconds > 0,
        ;
        if points <= seconds {
            assert(q >= 1) by (nonlinear_arith)
                requires
                    seconds < (q + 1) * points,
                    points <= seconds,
                    points > 0,
            ;
        } else {
            assert(q == 0) by (nonlinear_arith)
                requires
                    q * points <= seconds,
                    seconds < points,
                    q >= 0,
                    points > 0,
            ;
        }
    }
}

/// How the readings of the last `seconds` are asked for: a size of buckets that is asked for is
/// taken, a short span has none, and a long one has as many as there are points to draw.
pub fn graph_query(seconds: i64, bucket_seconds: Option<i64>, graph_points: i64) -> (r: GraphQuery)
    requires
        bucket_seconds is None && seconds > RAW_SPAN ==> graph_points != 0,
    ensures
        r == query_for(seconds as int, bucket_seconds, graph_points as int),
        r == match bucket_seconds {
            Some(b) => GraphQuery::Buckets(at_least_one(b as int) as i64),
            None => if seconds <= RAW_SPAN {
                GraphQuery::Raw
            } else {
                GraphQuery::Buckets(at_least_one(seconds as int / graph_points as int) as i64)
            },
        },
{
    match bucket_seconds {
        Some(b) => GraphQuery::Buckets(
            if b < 1 {
                1
            } else {
                b
            },
        ),
        None => {
            if seconds <= RAW_SPAN {
                return GraphQuery::Raw;
            }
            if graph_points < 0 {
                assert(seconds as int / graph_points as int <= 0) by (nonlinear_arith)
                    requires
                        seconds > 0,
                        graph_points < 0,
                ;
                return GraphQuery::Buckets(1);
            }
            let size: u64 = seconds as u64 / graph_points as u64;
            proof {
                assert(size <= seconds) by (nonlinear_arith)
                    requires
                        size == seconds as u64 / graph_points as u64,
                        seconds > 0,
                        graph_points > 0,
                ;
            }
            if size < 1 {
                GraphQuery::Buckets(1)
            } else {
                GraphQuery::Buckets(size as i64)
            }
        },
    }
}

/// How many bins a chart has: none for a number that is not positive.
pub open spec fn bin_count(bins: i64) -> int {
    if bins < 0 {
        0
    } else {
        bins as int
    }
}

/// A chart: each bin has the value of the last row for it, or the empty value.
pub open spec fn filled<T>(rows: Seq<(i64, T)>, bins: i64, empty: T) -> Seq<T>
    decreases rows.len(),
{
    if rows.len() == 0 {
        Seq::new(bin_count(bins) as nat, |i: int| empty)
    } else {
        let before = filled(rows.drop_last(), bins, empty);
        let (bin, value) = rows.last();
        if 0 <= bin < before.len() {
            before.update(bin as int, value)
        } else {
            before
        }
    }
}

/// A chart has as many bins as were asked for, and rows outside of it change nothing.
pub proof fn law_chart_has_its_bins<T>(rows: Seq<(i64, T)>, bins: i64, empty: T)
    ensures
        filled(rows, bins, empty).len() == bin_count(bins),
    decreases rows.len(),
{
    if rows.len() > 0 {
        law_chart_has_its_bins(rows.drop_last(), bins, empty);
    }
}

/// A bin that no row is for is empty, and one that a single row is for has its value.
pub proof fn law_bin_has_its_row<T>(rows: Seq<(i64, T)>, bins: i64, empty: T, bin: i64)
    requires
        0 <= bin < bin_count(bins),
        forall|i: int, j: int| 0 <= i < j < rows.len() ==> (#[trigger] rows[i]).0 != (#[trigger] rows[j]).0,
    ensures
        forall|i: int|
            0 <= i < rows.len() && (#[trigger] rows[i]).0 == bin ==> filled(rows, bins, empty)[bin as int] == rows[i].1,
        (forall|i: int| 0 <= i < rows.len() ==> (#[trigger] rows[i]).0 != bin) ==> filled(rows, bins, empty)[bin as int]
            == empty,
    decreases rows.len(),
{
    if rows.len() > 0 {
        let rest = rows.drop_last();
        assert forall|i: int, j: int| 0 <= i < j < rest.len() implies (#[trigger] rest[i]).0 != (#[trigger] rest[j]).0 by {
            assert(rows[i].0 != rows[j].0);
        }
        law_bin_has_its_row(rest, bins, empty, bin);
        law_chart_has_its_bins(rest, bins, empty);
        assert forall|i: int| 0 <= i < rows.len() && (#[trigger] rows[i]).0 == bin implies filled(
            rows,
            bins,
            empty,
        )[bin as int] == rows[i].1 by {
            if i < rest.len() {
                assert(rest[i].0 == bin);
                assert(rows[i].0 != rows[rows.len() - 1].0);
            }
        }
        if forall|i: int| 0 <= i < rows.len() ==> (#[trigger] rows[i]).0 != bin {
            assert(rows[rows.len() - 1].0 != bin);
            assert forall|i: int| 0 <= i < rest.len() implies (#[trigger] rest[i]).0 != bin by {
                assert(rows[i].0 != bin);
            }
        }
    }
}

/// A row sets its own bin and no other, and one for a bin that the chart does not have sets none;
/// a chart without rows is empty in every bin.
pub proof fn law_row_sets_its_bin<T>(rows: Seq<(i64, T)>, bins: i64, empty: T, bin: i64, value: T, i: int)
    requires
        0 <= i < bins,
    ensures
        filled(seq![], bins, empty)[i] == empty,
        filled(rows.push((bin, value)), bins, empty).len() == bins,
        filled(rows.push((bin, value)), bins, empty)[i] == if i == bin {
            value
        } else {
            filled(rows, bins, empty)[i]
        },
{
    assert(rows.push((bin, value)).drop_last() =~= rows);
    law_chart_has_its_bins(rows, bins, empty);
    law_chart_has_its_bins(rows.push((bin, value)), bins, empty);
}

/// What must be at least one stays as it is where it is, and is one otherwise.
pub proof fn law_at_least_one(n: int)
    ensures
        at_least_one(n) >= 1,
        at_least_one(n) >= n,
        at_least_one(n) == n || (n < 1 && at_least_one(n) == 1),
{
}

/// Puts averages into the bins of a chart.
pub fn fill_bins<T: Copy>(rows: &Vec<(i64, T)>, bins: i64, empty: T) -> (r: Vec<T>)
    requires
        bin_count(bins) <= usize::MAX,
    ensures
        r@ == filled(rows@, bins, empty),
{
    let n: u64 = if bins < 0 {
        0
    } else {
        bins as u64
    };
    let mut out: Vec<T> = Vec::new();
    let mut k: u64 = 0;
    while k < n
        invariant
            k <= n,
            out@ == Seq::new(k as nat, |i: int| empty),
        decreases n - k,
    {
        out.push(empty);
        k += 1;
        assert(out@ =~= Seq::new(k as nat, |i: int| empty));
    }
    let mut i: usize = 0;
    assert(out@ =~= filled(rows@.take(0), bins, empty));
    while i < rows.len()
        invariant
            i <= rows@.len(),
            n <= usize::MAX,
            n == bin_count(bins),
            out@ == filled(rows@.take(i as int), bins, empty),
            out@.len() == n,
        decreases rows.len() - i,
    {
        proof {
            assert(rows@.take(i + 1).drop_last() =~= rows@.take(i as int));
        }
        let (bin, value): (i64, T) = rows[i];
        if bin >= 0 && (bin as u64) < n {
            out.set(bin as usize, value);
        }
        i += 1;
    }
    assert(rows@.take(rows@.len() as int) =~= rows@);
    out
}

/// How many bins of some seconds make up a day.
pub open spec fn bins_in_a_day(bin_seconds: int) -> int {
    at_least_one(86400int / at_least_one(bin_seconds))
}

/// The bins of a chart fit into a day, and one more would not; there is always one.
pub proof fn law_bins_fit_a_day(bin_seconds: int)
    ensures
        1 <= bin_seconds <= 86400 ==> bins_in_a_day(bin_seconds) * bin_seconds <= 86400 < (bins_in_a_day(bin_seconds) + 1)
            * bin_seconds,
        bin_seconds > 86400 ==> bins_in_a_day(bin_seconds) == 1,
        bin_seconds < 1 ==> bins_in_a_day(bin_seconds) == 86400,
{
    if bin_seconds >= 1 {
        let q = 86400int / bin_seconds;
        assert(q * bin_seconds <= 86400 && 86400 < (q + 1) * bin_seconds && q >= 0) by (nonlinear_arith)
            requires
                q == 86400int / bin_seconds,
                bin_seconds >= 1,
        ;
        if bin_seconds <= 86400 {
            assert(q >= 1) by (nonlinear_arith)
                requires
                    86400 < (q + 1) * bin_seconds,
                    1 <= bin_seconds <= 86400,
            ;
        } else {
            assert(q == 0) by (nonlinear_arith)
                requires
                    q * bin_seconds <= 86400,
                    bin_seconds > 86400,
                    q >= 0,
            ;
        }
    }
}

/// How many bins of some seconds make up a day; at least one.
pub fn chart_bins(bin_seconds: i64) -> (r: i64)
    ensures
        r == bins_in_a_day(bin_seconds as int),
        r == at_least_one(86400int / at_least_one(bin_seconds as int)),
{
    let size: u64 = if bin_seconds < 1 {
        1
    } else {
        bin_seconds as u64
    };
    let bins: u64 = 86400u64 / size;
    proof {
        assert(bins <= 86400) by (nonlinear_arith)
            requires
                bins == 86400u64 / size,
                size >= 1,
        ;
    }
    if bins < 1 {
        1
    } else {
        bins as i64
    }
}

/// How many seconds some minutes are, at least one of them.
pub open spec fn seconds_in(minutes: int) -> int {
    at_least_one(minutes) * 60
}

/// A minute has sixty seconds, and fewer than one minute count as one.
pub proof fn law_minutes_have_seconds(minutes: int)
    ensures
        minutes >= 1 ==> seconds_in(minutes) == 60 * minutes,
        minutes < 1 ==> seconds_in(minutes) == 60,
        DEFAULT_RETENTION_DAYS == 30,
        RAW_SPAN == seconds_in(60),
{
}

/// How many seconds some minutes are, at least one of them; nothing where that cannot be held.
pub fn chart_seconds(minutes: i64) -> (r: Option<i64>)
    ensures
        match r {
            Some(n) => n == seconds_in(minutes as int),
            None => seconds_in(minutes as int) > i64::MAX,
        },
        match r {
            Some(n) => n == at_least_one(minutes as int) * 60,
            None => at_least_one(minutes as int) * 60 > i64::MAX,
        },
{
    let m: i64 = if minutes < 1 {
        1
    } else {
        minutes
    };
    m.checked_mul(60)
}

/// Where the readings are kept.
pub fn history_path(data_dir: &[u8]) -> (r: Vec<u8>)
    ensures
        r@ == paths::entry(data_dir@, "network_history.db"@),
{
    paths::join(data_dir, "network_history.db")
}

} // verus!
