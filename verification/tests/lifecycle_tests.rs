use stocko::errors::StockoError;
use stocko::lifecycle::{check_symbol, process_order, suffix_for_exchange_symbol, uppercased, watch};
use stocko::model::{Exchange, StockCollections};

#[test]
fn first_buy_creates_portfolio_position() {
    let mut c = StockCollections::new();
    process_order(&mut c, "aapl", None, 10, 500).expect("buy succeeds");
    assert_eq!(c.portfolio.len(), 1);
    assert_eq!(c.portfolio[0].symbol, "AAPL");
    assert_eq!(c.portfolio[0].orders.len(), 1);
    assert_eq!(c.portfolio[0].orders[0].shares, 10);
    assert_eq!(c.portfolio[0].orders[0].share_price, 500);
    assert!(c.watchlist.is_empty());
    assert!(c.archive.is_empty());
}

#[test]
fn selling_everything_moves_position_to_archive() {
    let mut c = StockCollections::new();
    process_order(&mut c, "AAPL", None, 10, 500).expect("buy succeeds");
    process_order(&mut c, "AAPL", None, -10, 800).expect("sell succeeds");
    assert!(c.portfolio.is_empty());
    assert_eq!(c.archive.len(), 1);
    let st = &c.archive[0];
    assert_eq!(st.symbol, "AAPL");
    assert_eq!(st.orders.len(), 2);
    let m = st.calculate_order_metrics();
    assert_eq!(m.total_spent, 5000);
    assert_eq!(m.total_sell, 8000);
    // Realized gain $30.00, which is 60% of the $50.00 spent.
    assert_eq!(m.realized_gain(), 3000);
    let pct = m.realized_gain_percentage().expect("money was spent");
    assert_eq!(pct.num * 100, 60 * pct.den);
}

#[test]
fn overselling_fails_and_leaves_store_unchanged() {
    let mut c = StockCollections::new();
    process_order(&mut c, "AAPL", None, 10, 500).expect("buy succeeds");
    let before_orders = c.portfolio[0].orders.clone();
    let r = process_order(&mut c, "AAPL", None, -11, 800);
    match r {
        Err(StockoError::InvalidShareQuantity { symbol, shares }) => {
            assert_eq!(symbol, "AAPL");
            assert_eq!(shares, 11);
        }
        other => panic!("expected InvalidShareQuantity, got {:?}", other),
    }
    assert_eq!(c.portfolio.len(), 1);
    assert_eq!(c.portfolio[0].orders, before_orders);
    assert!(c.archive.is_empty());
}

#[test]
fn selling_without_position_fails_without_mutation() {
    let mut c = StockCollections::new();
    let r = process_order(&mut c, "AAPL", None, -5, 800);
    match r {
        Err(StockoError::InvalidShareQuantity { symbol, shares }) => {
            assert_eq!(symbol, "AAPL");
            assert_eq!(shares, 5);
        }
        other => panic!("expected InvalidShareQuantity, got {:?}", other),
    }
    assert!(c.portfolio.is_empty());
    assert!(c.watchlist.is_empty());
    assert!(c.archive.is_empty());
}

#[test]
fn partial_sell_keeps_position_open() {
    let mut c = StockCollections::new();
    process_order(&mut c, "AAPL", None, 10, 500).expect("buy succeeds");
    process_order(&mut c, "AAPL", None, -4, 600).expect("sell succeeds");
    assert_eq!(c.portfolio.len(), 1);
    assert_eq!(c.portfolio[0].orders.len(), 2);
    assert!(c.archive.is_empty());
    let m = c.portfolio[0].calculate_order_metrics();
    assert_eq!(m.total_shares, 6);
}

#[test]
fn unknown_exchange_code_is_refused() {
    let mut c = StockCollections::new();
    let r = process_order(&mut c, "AAPL", Some("nasdaq"), 10, 500);
    assert!(matches!(r, Err(StockoError::InvalidExchange)));
    assert!(c.portfolio.is_empty());
}

#[test]
fn exchange_codes_resolve_case_insensitively() {
    assert!(matches!(Exchange::from_symbol(None), Ok(Exchange::NYSE)));
    assert!(matches!(Exchange::from_symbol(Some("TSX")), Ok(Exchange::TSX)));
    assert!(matches!(Exchange::from_symbol(Some("tsxv")), Ok(Exchange::TSXV)));
    assert!(matches!(Exchange::from_symbol(Some("NsYe")), Ok(Exchange::NYSE)));
    assert!(matches!(
        Exchange::from_symbol(Some("nyse")),
        Err(StockoError::InvalidExchange)
    ));
}

#[test]
fn exchange_suffixes_match_their_venues() {
    assert_eq!(suffix_for_exchange_symbol("tsx").unwrap(), ".TO");
    assert_eq!(suffix_for_exchange_symbol("TSXV").unwrap(), ".V");
    assert_eq!(suffix_for_exchange_symbol("nsye").unwrap(), "");
    assert!(matches!(
        suffix_for_exchange_symbol("amex"),
        Err(StockoError::InvalidExchange)
    ));
}

#[test]
fn watch_inserts_uppercased_symbol_with_empty_ledger() {
    let mut c = StockCollections::new();
    watch(&mut c, "shop.TO", None).expect("watch succeeds");
    assert_eq!(c.watchlist.len(), 1);
    assert_eq!(c.watchlist[0].symbol, "SHOP.TO");
    assert!(c.watchlist[0].orders.is_empty());
    // Watching the same symbol again overwrites the entry.
    watch(&mut c, "shop.to", Some("tsx")).expect("watch succeeds");
    assert_eq!(c.watchlist.len(), 1);
    assert!(matches!(c.watchlist[0].exchange, Exchange::TSX));
}

#[test]
fn uppercasing_touches_only_ascii_letters() {
    assert_eq!(uppercased("shop.to-b"), "SHOP.TO-B");
    assert_eq!(uppercased("AAPL"), "AAPL");
}

#[test]
fn symbol_validation_accepts_tickers_only() {
    assert!(check_symbol("aapl"));
    assert!(check_symbol("SHOP.TO"));
    assert!(check_symbol("BRK-B"));
    assert!(!check_symbol(""));
    assert!(!check_symbol("A PL"));
    assert!(!check_symbol("a\"b"));
}

#[test]
fn buying_more_appends_to_existing_ledger() {
    let mut c = StockCollections::new();
    process_order(&mut c, "AAPL", None, 10, 500).expect("buy succeeds");
    process_order(&mut c, "AAPL", None, 10, 700).expect("buy succeeds");
    assert_eq!(c.portfolio.len(), 1);
    assert_eq!(c.portfolio[0].orders.len(), 2);
    let m = c.portfolio[0].calculate_order_metrics();
    assert_eq!(m.total_spent, 12000);
    assert_eq!(m.total_shares, 20);
}

#[test]
fn watch_refuses_unknown_exchange_code() {
    let mut c = StockCollections::new();
    let r = watch(&mut c, "AAPL", Some("xyz"));
    assert!(matches!(r, Err(StockoError::InvalidExchange)));
    assert!(c.watchlist.is_empty());
}

#[test]
fn default_venue_is_nyse() {
    assert!(matches!(Exchange::default(), Exchange::NYSE));
}
