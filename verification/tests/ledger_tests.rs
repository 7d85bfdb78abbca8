use stocko::model::{Exchange, Order, Stock};

fn stock_with_orders(orders: Vec<Order>) -> Stock {
    Stock { symbol: String::from("AAPL"), exchange: Exchange::NYSE, orders }
}

#[test]
fn total_shares_sums_signed_counts() {
    let st = stock_with_orders(vec![
        Order { shares: 10, share_price: 500 },
        Order { shares: -4, share_price: 600 },
        Order { shares: 7, share_price: 550 },
    ]);
    let m = st.calculate_order_metrics();
    assert_eq!(m.total_shares, 13);
}

#[test]
fn total_shares_is_order_independent() {
    let a = stock_with_orders(vec![
        Order { shares: 10, share_price: 500 },
        Order { shares: -4, share_price: 600 },
        Order { shares: 7, share_price: 550 },
    ]);
    let b = stock_with_orders(vec![
        Order { shares: 7, share_price: 550 },
        Order { shares: 10, share_price: 500 },
        Order { shares: -4, share_price: 600 },
    ]);
    assert_eq!(
        a.calculate_order_metrics().total_shares,
        b.calculate_order_metrics().total_shares
    );
}

#[test]
fn buy_only_average_price_is_weighted_mean() {
    // Two buys: 10 shares at $5.00 and 10 shares at $7.00 (in cents).
    let st = stock_with_orders(vec![
        Order { shares: 10, share_price: 500 },
        Order { shares: 10, share_price: 700 },
    ]);
    let m = st.calculate_order_metrics();
    assert_eq!(m.total_spent, 12000);
    assert_eq!(m.total_shares, 20);
    let avg = m.average_price().expect("open position has an average price");
    assert_eq!(avg.num, 12000);
    assert_eq!(avg.den, 20);
    // The fraction is exactly $6.00.
    assert_eq!(avg.num, 600 * avg.den);
}

#[test]
fn metrics_split_buys_and_sells() {
    let st = stock_with_orders(vec![
        Order { shares: 10, share_price: 500 },
        Order { shares: -4, share_price: 600 },
    ]);
    let m = st.calculate_order_metrics();
    assert_eq!(m.total_spent, 5000);
    assert_eq!(m.total_sell, 2400);
    assert_eq!(m.total_shares, 6);
}

#[test]
fn average_price_undefined_when_closed() {
    let st = stock_with_orders(vec![
        Order { shares: 10, share_price: 500 },
        Order { shares: -10, share_price: 800 },
    ]);
    let m = st.calculate_order_metrics();
    assert_eq!(m.total_shares, 0);
    assert!(m.average_price().is_none());
    assert_eq!(m.realized_gain(), 3000);
    let pct = m.realized_gain_percentage().expect("money was spent");
    assert_eq!(pct.num, 3000);
    assert_eq!(pct.den, 5000);
}

#[test]
fn empty_ledger_has_degenerate_metrics() {
    let st = stock_with_orders(Vec::new());
    let m = st.calculate_order_metrics();
    assert_eq!(m.total_spent, 0);
    assert_eq!(m.total_sell, 0);
    assert_eq!(m.total_shares, 0);
    assert!(m.average_price().is_none());
}
