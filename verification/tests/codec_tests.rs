use stocko::codec::{decode_store, load_data, save_data};
use stocko::errors::StockoError;
use stocko::lifecycle::process_order;
use stocko::model::{Exchange, Order, Stock, StockCollections};

fn sample_store() -> StockCollections {
    let mut c = StockCollections::new();
    process_order(&mut c, "aapl", None, 10, 500).expect("buy");
    process_order(&mut c, "aapl", None, -4, 600).expect("sell");
    process_order(&mut c, "shop.to", Some("tsx"), 3, 12345).expect("buy");
    process_order(&mut c, "gme", None, 2, 2000).expect("buy");
    process_order(&mut c, "gme", None, -2, 9000).expect("sell all");
    stocko::lifecycle::watch(&mut c, "msft", None).expect("watch");
    c
}

#[test]
fn save_then_load_round_trips_every_field() {
    let c = sample_store();
    let text = save_data(&c);
    let d = load_data(Some(text.as_str())).expect("the saved text loads");
    assert_eq!(d, c);
}

#[test]
fn empty_store_encodes_to_three_empty_buckets() {
    let c = StockCollections::new();
    assert_eq!(
        save_data(&c),
        "{\"portfolio\":{},\"watchlist\":{},\"archive\":{}}"
    );
    let d = decode_store("{\"portfolio\":{},\"watchlist\":{},\"archive\":{}}").expect("loads");
    assert_eq!(d, c);
}

#[test]
fn loading_missing_file_yields_empty_store() {
    let c = load_data(None).expect("no file means a fresh store");
    assert!(c.portfolio.is_empty());
    assert!(c.watchlist.is_empty());
    assert!(c.archive.is_empty());
}

#[test]
fn malformed_text_is_a_read_error() {
    assert!(matches!(
        load_data(Some("not json at all")),
        Err(StockoError::ReadDataError(_))
    ));
    assert!(matches!(
        decode_store("{\"portfolio\":{}"),
        Err(StockoError::ReadDataError(_))
    ));
    // Trailing garbage after a complete store is refused too.
    assert!(matches!(
        decode_store("{\"portfolio\":{},\"watchlist\":{},\"archive\":{}}x"),
        Err(StockoError::ReadDataError(_))
    ));
}

#[test]
fn key_must_name_the_position_it_holds() {
    let text = "{\"portfolio\":{\"MSFT\":{\"symbol\":\"AAPL\",\"exchange\":\"NYSE\",\"orders\":[]}},\"watchlist\":{},\"archive\":{}}";
    assert!(matches!(
        decode_store(text),
        Err(StockoError::ReadDataError(_))
    ));
}

#[test]
fn duplicate_symbols_in_one_bucket_are_refused() {
    let one = "\"AAPL\":{\"symbol\":\"AAPL\",\"exchange\":\"NYSE\",\"orders\":[]}";
    let text = format!(
        "{{\"portfolio\":{{{},{}}},\"watchlist\":{{}},\"archive\":{{}}}}",
        one, one
    );
    assert!(matches!(
        decode_store(&text),
        Err(StockoError::ReadDataError(_))
    ));
}

#[test]
fn encoded_store_is_valid_json_with_the_documented_shape() {
    let c = sample_store();
    let text = save_data(&c);
    let v: serde_json::Value = serde_json::from_str(&text).expect("the encoder emits JSON");
    assert_eq!(v["portfolio"]["AAPL"]["symbol"], "AAPL");
    assert_eq!(v["portfolio"]["AAPL"]["orders"][0]["shares"], 10);
    assert_eq!(v["portfolio"]["AAPL"]["orders"][1]["shares"], -4);
    assert_eq!(v["portfolio"]["AAPL"]["orders"][1]["share_price"], 600);
    assert_eq!(v["portfolio"]["SHOP.TO"]["exchange"], "TSX");
    assert_eq!(v["watchlist"]["MSFT"]["orders"].as_array().unwrap().len(), 0);
    assert_eq!(v["archive"]["GME"]["orders"][1]["share_price"], 9000);
}

#[test]
fn negative_shares_and_large_prices_round_trip() {
    let mut c = StockCollections::new();
    c.archive.push(Stock {
        symbol: String::from("X"),
        exchange: Exchange::TSXV,
        orders: vec![
            Order { shares: i32::MAX, share_price: u32::MAX },
            Order { shares: -i32::MAX, share_price: 0 },
        ],
    });
    let text = save_data(&c);
    let d = load_data(Some(text.as_str())).expect("loads");
    assert_eq!(d, c);
}

#[test]
fn unknown_exchange_name_in_text_is_refused() {
    let text = "{\"portfolio\":{\"A\":{\"symbol\":\"A\",\"exchange\":\"AMEX\",\"orders\":[]}},\"watchlist\":{},\"archive\":{}}";
    assert!(matches!(
        decode_store(text),
        Err(StockoError::ReadDataError(_))
    ));
}

#[test]
fn handwritten_canonical_text_decodes() {
    let text = "{\"portfolio\":{\"AAPL\":{\"symbol\":\"AAPL\",\"exchange\":\"NYSE\",\"orders\":[{\"shares\":10,\"share_price\":500},{\"shares\":-4,\"share_price\":600}]}},\"watchlist\":{},\"archive\":{}}";
    let c = decode_store(text).expect("canonical text decodes");
    assert_eq!(c.portfolio.len(), 1);
    assert_eq!(c.portfolio[0].symbol, "AAPL");
    assert_eq!(
        c.portfolio[0].orders,
        vec![
            Order { shares: 10, share_price: 500 },
            Order { shares: -4, share_price: 600 },
        ]
    );
    // Decoding what the encoder writes for this store gives the text back.
    assert_eq!(save_data(&c), text);
}

#[test]
fn symbol_may_sit_in_watchlist_and_portfolio_at_once() {
    let mut c = StockCollections::new();
    process_order(&mut c, "AAPL", None, 10, 500).expect("buy");
    stocko::lifecycle::watch(&mut c, "AAPL", None).expect("watch");
    assert_eq!(c.portfolio.len(), 1);
    assert_eq!(c.watchlist.len(), 1);
    let text = save_data(&c);
    let d = load_data(Some(text.as_str())).expect("loads");
    assert_eq!(d, c);
}
