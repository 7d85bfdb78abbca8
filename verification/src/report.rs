//! The listing report: the computed rows behind the three tables the
//! command-line front end prints. Rendering (table drawing, colors) is
//! left to the caller; this module computes every number a row shows.

use vstd::prelude::*;
use crate::errors::StockoError;
use crate::ledger::lemma_sum_bounds;
use crate::model::{Ratio, Stock, StockCollections, sum_sell, sum_spent, sum_shares};
use crate::quotes::{StockMetrics, calculate_stock_metrics, stock_metrics_spec};
use vstd::string::StringExecFns;

verus! {

/// The chronologically ordered close-price history fetched for one
/// symbol, in cents.
pub struct QuoteHistory {
    pub symbol: String,
    pub closes: Vec<u32>,
}

/// No two histories of a quote book share a symbol.
pub open spec fn distinct_quote_symbols(q: Seq<QuoteHistory>) -> bool {
    forall|i: int, j: int|
        0 <= i < j < q.len() ==> (#[trigger] q[i]).symbol@ != (#[trigger] q[j]).symbol@
}

/// The quote book holds a history for this symbol.
pub open spec fn has_quote(q: Seq<QuoteHistory>, sym: Seq<char>) -> bool {
    exists|i: int| 0 <= i < q.len() && (#[trigger] q[i]).symbol@ == sym
}

/// The index of this symbol's history (unique under
/// `distinct_quote_symbols`).
pub open spec fn quote_index(q: Seq<QuoteHistory>, sym: Seq<char>) -> int {
    choose|i: int| 0 <= i < q.len() && (#[trigger] q[i]).symbol@ == sym
}

/// This symbol's history.
pub open spec fn quote_at(q: Seq<QuoteHistory>, sym: Seq<char>) -> QuoteHistory {
    q[quote_index(q, sym)]
}

/// Every position of the collection has a history of at least two
/// closes in the quote book: what one listing row needs.
pub open spec fn quotes_ok_for(v: Seq<Stock>, q: Seq<QuoteHistory>) -> bool {
    forall|i: int|
        0 <= i < v.len() ==> has_quote(q, (#[trigger] v[i]).symbol@) && quote_at(
            q,
            v[i].symbol@,
        ).closes@.len() >= 2
}

/// One row of the portfolio table, in cents: the quote metrics, the
/// net share count, the book cost (what the held shares cost), the
/// unrealized gain `close_today * total_shares - total_spent`, and
/// that gain as a fraction of the cost.
pub struct PortfolioRow {
    pub symbol: String,
    pub metrics: StockMetrics,
    pub total_shares: i128,
    pub book_cost: i128,
    pub gain: i128,
    pub gain_percentage: Option<Ratio>,
}

/// One row of the watch list table: the symbol and its quote metrics.
pub struct WatchRow {
    pub symbol: String,
    pub metrics: StockMetrics,
}

/// One row of the archive table, in cents: what the position cost,
/// what its sells brought in, the realized gain, and that gain as a
/// fraction of the cost.
pub struct ArchiveRow {
    pub symbol: String,
    pub total_spent: i128,
    pub total_sell: i128,
    pub gain: i128,
    pub gain_percentage: Option<Ratio>,
}

/// The whole listing: one row per position, and the archive's summary
/// line.
pub struct Report {
    pub portfolio: Vec<PortfolioRow>,
    pub watchlist: Vec<WatchRow>,
    pub archive: Vec<ArchiveRow>,
    pub total_spent: i128,
    pub total_sell: i128,
    pub total_gain: i128,
    pub total_gain_percentage: Option<Ratio>,
}

/// What a portfolio row must hold for a position and its close-price
/// history.
pub open spec fn portfolio_row_spec(st: Stock, closes: Seq<u32>, row: PortfolioRow) -> bool {
    &&& row.symbol@ == st.symbol@
    &&& stock_metrics_spec(closes, row.metrics)
    &&& row.total_shares == sum_shares(st.orders@)
    &&& row.book_cost == sum_spent(st.orders@)
    &&& row.gain == closes[closes.len() - 1] * sum_shares(st.orders@) - sum_spent(st.orders@)
    &&& (row.gain_percentage is Some <==> sum_spent(st.orders@) != 0)
    &&& (row.gain_percentage matches Some(p) ==> p.num == row.gain && p.den == sum_spent(
        st.orders@,
    ))
}

/// What a watch list row must hold.
pub open spec fn watch_row_spec(st: Stock, closes: Seq<u32>, row: WatchRow) -> bool {
    &&& row.symbol@ == st.symbol@
    &&& stock_metrics_spec(closes, row.metrics)
}

/// What an archive row must hold for a closed position.
pub open spec fn archive_row_spec(st: Stock, row: ArchiveRow) -> bool {
    &&& row.symbol@ == st.symbol@
    &&& row.total_spent == sum_spent(st.orders@)
    &&& row.total_sell == sum_sell(st.orders@)
    &&& row.gain == sum_sell(st.orders@) - sum_spent(st.orders@)
    &&& (row.gain_percentage is Some <==> sum_spent(st.orders@) != 0)
    &&& (row.gain_percentage matches Some(p) ==> p.num == row.gain && p.den == sum_spent(
        st.orders@,
    ))
}

/// The number of orders recorded over a whole collection.
pub open spec fn total_orders(v: Seq<Stock>) -> int
    decreases v.len(),
{
    if v.len() == 0 {
        0
    } else {
        total_orders(v.drop_last()) + v.last().orders@.len()
    }
}

/// Cost of the buys summed over a whole collection.
pub open spec fn total_spent_all(v: Seq<Stock>) -> int
    decreases v.len(),
{
    if v.len() == 0 {
        0
    } else {
        total_spent_all(v.drop_last()) + sum_spent(v.last().orders@)
    }
}

/// Proceeds of the sells summed over a whole collection.
pub open spec fn total_sell_all(v: Seq<Stock>) -> int
    decreases v.len(),
{
    if v.len() == 0 {
        0
    } else {
        total_sell_all(v.drop_last()) + sum_sell(v.last().orders@)
    }
}

/// No position holds more orders than the whole collection does.
proof fn lemma_total_orders_elem(v: Seq<Stock>, i: int)
    requires
        0 <= i < v.len(),
    ensures
        v[i].orders@.len() <= total_orders(v),
        total_orders(v) >= 0,
    decreases v.len(),
{
    if v.len() > 0 {
        if i == v.len() - 1 {
            lemma_total_orders_nonneg(v.drop_last());
        } else {
            lemma_total_orders_elem(v.drop_last(), i);
            assert(v.drop_last()[i] == v[i]);
        }
    }
}

/// A collection records at least zero orders.
proof fn lemma_total_orders_nonneg(v: Seq<Stock>)
    ensures
        total_orders(v) >= 0,
    decreases v.len(),
{
    if v.len() > 0 {
        lemma_total_orders_nonneg(v.drop_last());
    }
}

/// A prefix of a collection records no more orders than the whole.
proof fn lemma_total_orders_take(v: Seq<Stock>, k: int)
    requires
        0 <= k <= v.len(),
    ensures
        total_orders(v.take(k)) <= total_orders(v),
        total_orders(v.take(k)) >= 0,
    decreases v.len() - k,
{
    if k == v.len() {
        assert(v.take(k) =~= v);
        lemma_total_orders_nonneg(v);
    } else {
        lemma_total_orders_take(v, k + 1);
        assert(v.take(k + 1).drop_last() =~= v.take(k));
        assert(v.take(k + 1).last() == v[k]);
        lemma_total_orders_nonneg(v.take(k));
    }
}

/// Finds the history for a symbol in the quote book, if any.
fn find_quote(q: &Vec<QuoteHistory>, sym: &String) -> (r: Option<usize>)
    requires
        distinct_quote_symbols(q@),
    ensures
        match r {
            Some(i) => 0 <= i < q@.len() && q@[i as int].symbol@ == sym@ && has_quote(q@, sym@)
                && i == quote_index(q@, sym@),
            None => !has_quote(q@, sym@),
        },
{
    let mut i: usize = 0;
    while i < q.len()
        invariant
            0 <= i <= q@.len(),
            distinct_quote_symbols(q@),
            forall|j: int| 0 <= j < i ==> (#[trigger] q@[j]).symbol@ != sym@,
        decreases q@.len() - i,
    {
        if q[i].symbol == *sym {
            proof {
                assert(has_quote(q@, sym@));
                let k = quote_index(q@, sym@);
                assert(0 <= k < q@.len() && q@[k].symbol@ == sym@);
                if k != i {
                    assert(q@[k].symbol@ != q@[i as int].symbol@);
                }
            }
            return Some(i);
        }
        i = i + 1;
    }
    None
}

/// Builds one portfolio row from a position and its close history.
/// The order-count bound is what memory forces: a ledger of more
/// orders than this cannot exist in one address space.
pub fn portfolio_row(st: &Stock, closes: &Vec<u32>) -> (row: PortfolioRow)
    requires
        closes@.len() >= 2,
        st.orders@.len() <= 0x1000_0000_0000_0000,
    ensures
        portfolio_row_spec(*st, closes@, row),
{
    let m = st.calculate_order_metrics();
    let sm = calculate_stock_metrics(closes);
    proof {
        lemma_sum_bounds(st.orders@);
        assert((sm.close_today as int) * m.total_shares
            <= 0x1_0000_0000 * (0x1000_0000_0000_0000 * 0x8000_0000) && (sm.close_today as int)
            * m.total_shares >= -(0x1_0000_0000 * (0x1000_0000_0000_0000 * 0x8000_0000)))
            by (nonlinear_arith)
            requires
                0 <= sm.close_today < 0x1_0000_0000,
                -(0x1000_0000_0000_0000 * 0x8000_0000) <= m.total_shares <= 0x1000_0000_0000_0000
                    * 0x8000_0000,
        ;
        assert(0 <= m.total_spent <= 0x1000_0000_0000_0000 * 0x8000_0000_0000_0000)
            by (nonlinear_arith)
            requires
                0 <= m.total_spent <= st.orders@.len() * 0x8000_0000_0000_0000,
                st.orders@.len() <= 0x1000_0000_0000_0000,
        ;
    }
    let gain: i128 = (sm.close_today as i128) * m.total_shares - m.total_spent;
    let gain_percentage = if m.total_spent != 0 {
        Some(Ratio { num: gain, den: m.total_spent })
    } else {
        None
    };
    PortfolioRow {
        symbol: st.symbol.clone(),
        metrics: sm,
        total_shares: m.total_shares,
        book_cost: m.total_spent,
        gain,
        gain_percentage,
    }
}

/// Builds one watch list row from a position and its close history.
pub fn watch_row(st: &Stock, closes: &Vec<u32>) -> (row: WatchRow)
    requires
        closes@.len() >= 2,
    ensures
        watch_row_spec(*st, closes@, row),
{
    let sm = calculate_stock_metrics(closes);
    WatchRow { symbol: st.symbol.clone(), metrics: sm }
}

/// Builds one archive row from a closed position. The order-count
/// bound is what memory forces.
pub fn archive_row(st: &Stock) -> (row: ArchiveRow)
    requires
        st.orders@.len() <= 0x1000_0000_0000_0000,
    ensures
        archive_row_spec(*st, row),
{
    let m = st.calculate_order_metrics();
    proof {
        lemma_sum_bounds(st.orders@);
        assert(0 <= m.total_spent <= 0x1000_0000_0000_0000 * 0x8000_0000_0000_0000 && 0
            <= m.total_sell <= 0x1000_0000_0000_0000 * 0x8000_0000_0000_0000) by (nonlinear_arith)
            requires
                0 <= m.total_spent <= st.orders@.len() * 0x8000_0000_0000_0000,
                0 <= m.total_sell <= st.orders@.len() * 0x8000_0000_0000_0000,
                st.orders@.len() <= 0x1000_0000_0000_0000,
        ;
    }
    let gain: i128 = m.total_sell - m.total_spent;
    let gain_percentage = if m.total_spent != 0 {
        Some(Ratio { num: gain, den: m.total_spent })
    } else {
        None
    };
    ArchiveRow {
        symbol: st.symbol.clone(),
        total_spent: m.total_spent,
        total_sell: m.total_sell,
        gain,
        gain_percentage,
    }
}

/// Computes the whole listing from the store and the quote book the
/// caller fetched: one row per portfolio, watch list and archive
/// position, and the archive's summary totals. A symbol whose history
/// is missing or shorter than two closes aborts the whole listing with
/// the provider error, as a fetch failure does. The order-count bounds
/// are what memory forces.
pub fn list(collections: &StockCollections, quotes: &Vec<QuoteHistory>) -> (r: Result<
    Report,
    StockoError,
>)
    requires
        distinct_quote_symbols(quotes@),
        total_orders(collections.portfolio@) <= 0x1000_0000_0000_0000,
        total_orders(collections.archive@) <= 0x1000_0000_0000_0000,
    ensures
        r is Ok <==> quotes_ok_for(collections.portfolio@, quotes@) && quotes_ok_for(
            collections.watchlist@,
            quotes@,
        ),
        r matches Err(e) ==> e is AlphaVantageError,
        r matches Ok(rep) ==> ({
            let pf = collections.portfolio@;
            let wl = collections.watchlist@;
            let ar = collections.archive@;
            &&& rep.portfolio@.len() == pf.len()
            &&& forall|i: int|
                0 <= i < pf.len() ==> portfolio_row_spec(
                    pf[i],
                    quote_at(quotes@, pf[i].symbol@).closes@,
                    #[trigger] rep.portfolio@[i],
                )
            &&& rep.watchlist@.len() == wl.len()
            &&& forall|i: int|
                0 <= i < wl.len() ==> watch_row_spec(
                    wl[i],
                    quote_at(quotes@, wl[i].symbol@).closes@,
                    #[trigger] rep.watchlist@[i],
                )
            &&& rep.archive@.len() == ar.len()
            &&& forall|i: int|
                0 <= i < ar.len() ==> archive_row_spec(ar[i], #[trigger] rep.archive@[i])
            &&& rep.total_spent == total_spent_all(ar)
            &&& rep.total_sell == total_sell_all(ar)
            &&& rep.total_gain == total_sell_all(ar) - total_spent_all(ar)
            &&& (rep.total_gain_percentage is Some <==> total_spent_all(ar) != 0)
            &&& (rep.total_gain_percentage matches Some(p) ==> p.num == rep.total_gain && p.den
                == total_spent_all(ar))
        }),
{
    let mut portfolio_rows: Vec<PortfolioRow> = Vec::new();
    let mut i: usize = 0;
    while i < collections.portfolio.len()
        invariant
            0 <= i <= collections.portfolio@.len(),
            distinct_quote_symbols(quotes@),
            total_orders(collections.portfolio@) <= 0x1000_0000_0000_0000,
            portfolio_rows@.len() == i,
            forall|j: int|
                0 <= j < i ==> has_quote(quotes@, (#[trigger] collections.portfolio@[j]).symbol@)
                    && quote_at(quotes@, collections.portfolio@[j].symbol@).closes@.len() >= 2,
            forall|j: int|
                0 <= j < i ==> portfolio_row_spec(
                    collections.portfolio@[j],
                    quote_at(quotes@, collections.portfolio@[j].symbol@).closes@,
                    #[trigger] portfolio_rows@[j],
                ),
        decreases collections.portfolio@.len() - i,
    {
        let st = &collections.portfolio[i];
        match find_quote(quotes, &st.symbol) {
            Some(qi) => {
                let closes = &quotes[qi].closes;
                if closes.len() < 2 {
                    return Err(
                        StockoError::AlphaVantageError(
                            String::from_str("price history holds fewer than two closes"),
                        ),
                    );
                }
                proof {
                    lemma_total_orders_elem(collections.portfolio@, i as int);
                }
                let row = portfolio_row(st, closes);
                portfolio_rows.push(row);
            },
            None => {
                return Err(
                    StockoError::AlphaVantageError(
                        String::from_str("no price history for symbol"),
                    ),
                );
            },
        }
        i = i + 1;
    }
    let mut watch_rows: Vec<WatchRow> = Vec::new();
    let mut k: usize = 0;
    while k < collections.watchlist.len()
        invariant
            0 <= k <= collections.watchlist@.len(),
            distinct_quote_symbols(quotes@),
            watch_rows@.len() == k,
            forall|j: int|
                0 <= j < k ==> has_quote(quotes@, (#[trigger] collections.watchlist@[j]).symbol@)
                    && quote_at(quotes@, collections.watchlist@[j].symbol@).closes@.len() >= 2,
            forall|j: int|
                0 <= j < k ==> watch_row_spec(
                    collections.watchlist@[j],
                    quote_at(quotes@, collections.watchlist@[j].symbol@).closes@,
                    #[trigger] watch_rows@[j],
                ),
        decreases collections.watchlist@.len() - k,
    {
        let st = &collections.watchlist[k];
        match find_quote(quotes, &st.symbol) {
            Some(qi) => {
                let closes = &quotes[qi].closes;
                if closes.len() < 2 {
                    return Err(
                        StockoError::AlphaVantageError(
                            String::from_str("price history holds fewer than two closes"),
                        ),
                    );
                }
                let row = watch_row(st, closes);
                watch_rows.push(row);
            },
            None => {
                return Err(
                    StockoError::AlphaVantageError(
                        String::from_str("no price history for symbol"),
                    ),
                );
            },
        }
        k = k + 1;
    }
    let mut archive_rows: Vec<ArchiveRow> = Vec::new();
    let mut total_spent: i128 = 0;
    let mut total_sell: i128 = 0;
    let mut a: usize = 0;
    while a < collections.archive.len()
        invariant
            0 <= a <= collections.archive@.len(),
            total_orders(collections.archive@) <= 0x1000_0000_0000_0000,
            archive_rows@.len() == a,
            forall|j: int|
                0 <= j < a ==> archive_row_spec(
                    collections.archive@[j],
                    #[trigger] archive_rows@[j],
                ),
            total_spent == total_spent_all(collections.archive@.take(a as int)),
            total_sell == total_sell_all(collections.archive@.take(a as int)),
            0 <= total_spent <= total_orders(collections.archive@.take(a as int))
                * 0x8000_0000_0000_0000,
            0 <= total_sell <= total_orders(collections.archive@.take(a as int))
                * 0x8000_0000_0000_0000,
        decreases collections.archive@.len() - a,
    {
        let st = &collections.archive[a];
        proof {
            lemma_total_orders_elem(collections.archive@, a as int);
            lemma_sum_bounds(st.orders@);
            assert(collections.archive@.take(a as int + 1).drop_last() =~= collections.archive@.take(
                a as int,
            ));
            assert(collections.archive@.take(a as int + 1).last() == collections.archive@[
                a as int]);
            lemma_total_orders_take(collections.archive@, a as int + 1);
            assert(0 <= sum_spent(st.orders@) <= st.orders@.len() * 0x8000_0000_0000_0000);
            assert(st.orders@.len() * 0x8000_0000_0000_0000 <= 0x1000_0000_0000_0000
                * 0x8000_0000_0000_0000) by (nonlinear_arith)
                requires
                    0 <= st.orders@.len() <= 0x1000_0000_0000_0000,
            ;
            assert(total_orders(collections.archive@.take(a as int + 1))
                <= 0x1000_0000_0000_0000);
            assert(total_orders(collections.archive@.take(a as int + 1))
                * 0x8000_0000_0000_0000 <= 0x1000_0000_0000_0000 * 0x8000_0000_0000_0000)
                by (nonlinear_arith)
                requires
                    total_orders(collections.archive@.take(a as int + 1))
                        <= 0x1000_0000_0000_0000,
            ;
        }
        let row = archive_row(st);
        total_spent = total_spent + row.total_spent;
        total_sell = total_sell + row.total_sell;
        archive_rows.push(row);
        a = a + 1;
    }
    proof {
        assert(collections.archive@.take(collections.archive@.len() as int)
            =~= collections.archive@);
    }
    let total_gain: i128 = total_sell - total_spent;
    let total_gain_percentage = if total_spent != 0 {
        Some(Ratio { num: total_gain, den: total_spent })
    } else {
        None
    };
    Ok(
        Report {
            portfolio: portfolio_rows,
            watchlist: watch_rows,
            archive: archive_rows,
            total_spent,
            total_sell,
            total_gain,
            total_gain_percentage,
        },
    )
}

} // verus!
