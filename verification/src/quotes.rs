//! Quote metrics: the day-over-day change derived from a symbol's
//! chronologically ordered close-price history.

use vstd::prelude::*;
use crate::model::Ratio;

verus! {

/// Day-over-day change of one symbol, in cents: the last close, the
/// close before it, their difference, and the difference as a fraction
/// of the earlier close (in percent).
#[derive(Debug, Clone, Copy, PartialEq, Eq, Structural)]
pub struct StockMetrics {
    pub change: i64,
    pub change_percentage: Option<Ratio>,
    pub close_today: u32,
    pub close_yesterday: u32,
}

/// What the quote metrics of a close-price history must be: the two
/// most recent closes, their difference, and `100 * change /
/// close_yesterday` as an exact fraction, which is undefined exactly
/// when the earlier close is zero.
pub open spec fn stock_metrics_spec(closes: Seq<u32>, m: StockMetrics) -> bool {
    &&& m.close_today == closes[closes.len() - 1]
    &&& m.close_yesterday == closes[closes.len() - 2]
    &&& m.change == m.close_today - m.close_yesterday
    &&& (m.change_percentage is Some <==> m.close_yesterday != 0)
    &&& (m.change_percentage matches Some(q) ==> q.num == 100 * (m.close_today
        - m.close_yesterday) && q.den == m.close_yesterday)
}

/// Derives the day-over-day change from a close-price history, ordered
/// oldest to newest. At least two entries are required; a shorter
/// history is a fatal error for that symbol's report row and is
/// refused by the report builder before this runs.
pub fn calculate_stock_metrics(closes: &Vec<u32>) -> (r: StockMetrics)
    requires
        closes@.len() >= 2,
    ensures
        stock_metrics_spec(closes@, r),
{
    let n = closes.len();
    let close_today = closes[n - 1];
    let close_yesterday = closes[n - 2];
    let change: i64 = close_today as i64 - close_yesterday as i64;
    let change_percentage = if close_yesterday != 0 {
        Some(Ratio { num: 100 * (change as i128), den: close_yesterday as i128 })
    } else {
        None
    };
    StockMetrics { change, change_percentage, close_today, close_yesterday }
}

} // verus!
