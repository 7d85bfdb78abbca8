use stocko::errors::StockoError;
use stocko::lifecycle::{process_order, watch};
use stocko::model::StockCollections;
use stocko::quotes::calculate_stock_metrics;
use stocko::report::{QuoteHistory, list};

#[test]
fn change_over_two_closes_is_difference_and_percentage() {
    // Closes $100.00 then $110.00: change $10.00, which is 10%.
    let closes = vec![10000u32, 11000u32];
    let m = calculate_stock_metrics(&closes);
    assert_eq!(m.close_today, 11000);
    assert_eq!(m.close_yesterday, 10000);
    assert_eq!(m.change, 1000);
    let pct = m.change_percentage.expect("yesterday's close is not zero");
    assert_eq!(pct.num, 100 * 1000);
    assert_eq!(pct.den, 10000);
    assert_eq!(pct.num, 10 * pct.den);
}

#[test]
fn change_uses_the_two_most_recent_closes() {
    let closes = vec![1u32, 2, 3, 9000, 9100];
    let m = calculate_stock_metrics(&closes);
    assert_eq!(m.close_today, 9100);
    assert_eq!(m.close_yesterday, 9000);
    assert_eq!(m.change, 100);
}

#[test]
fn change_percentage_undefined_on_zero_close() {
    let closes = vec![0u32, 500];
    let m = calculate_stock_metrics(&closes);
    assert_eq!(m.change, 500);
    assert!(m.change_percentage.is_none());
}

fn store_and_quotes() -> (StockCollections, Vec<QuoteHistory>) {
    let mut c = StockCollections::new();
    process_order(&mut c, "AAPL", None, 10, 500).expect("buy");
    process_order(&mut c, "GME", None, 2, 2000).expect("buy");
    process_order(&mut c, "GME", None, -2, 9000).expect("sell all");
    watch(&mut c, "MSFT", None).expect("watch");
    let quotes = vec![
        QuoteHistory { symbol: String::from("AAPL"), closes: vec![10000, 11000] },
        QuoteHistory { symbol: String::from("MSFT"), closes: vec![20000, 19000] },
    ];
    (c, quotes)
}

#[test]
fn listing_computes_every_row() {
    let (c, quotes) = store_and_quotes();
    let rep = list(&c, &quotes).expect("every symbol has quotes");

    assert_eq!(rep.portfolio.len(), 1);
    let row = &rep.portfolio[0];
    assert_eq!(row.symbol, "AAPL");
    assert_eq!(row.total_shares, 10);
    assert_eq!(row.book_cost, 5000);
    // Held 10 shares now worth $110.00 each against $50.00 spent:
    // unrealized gain $1,050.00.
    assert_eq!(row.gain, 11000 * 10 - 5000);
    let pct = row.gain_percentage.as_ref().expect("money was spent");
    assert_eq!(pct.num, row.gain);
    assert_eq!(pct.den, 5000);

    assert_eq!(rep.watchlist.len(), 1);
    assert_eq!(rep.watchlist[0].symbol, "MSFT");
    assert_eq!(rep.watchlist[0].metrics.change, -1000);

    assert_eq!(rep.archive.len(), 1);
    let arow = &rep.archive[0];
    assert_eq!(arow.symbol, "GME");
    assert_eq!(arow.total_spent, 4000);
    assert_eq!(arow.total_sell, 18000);
    assert_eq!(arow.gain, 14000);
    assert_eq!(rep.total_spent, 4000);
    assert_eq!(rep.total_sell, 18000);
    assert_eq!(rep.total_gain, 14000);
    let tpct = rep.total_gain_percentage.expect("money was spent");
    assert_eq!(tpct.num, 14000);
    assert_eq!(tpct.den, 4000);
}

#[test]
fn missing_quote_aborts_the_listing() {
    let (c, mut quotes) = store_and_quotes();
    quotes.remove(1);
    assert!(matches!(
        list(&c, &quotes),
        Err(StockoError::AlphaVantageError(_))
    ));
}

#[test]
fn short_history_aborts_the_listing() {
    let (c, mut quotes) = store_and_quotes();
    quotes[0].closes = vec![10000];
    assert!(matches!(
        list(&c, &quotes),
        Err(StockoError::AlphaVantageError(_))
    ));
}
