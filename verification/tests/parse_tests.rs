use ratio_noti::errors::RatioError;
use ratio_noti::fixed::SCALE;
use ratio_noti::market::{parse_fixed, parse_order_book, parse_price, OrderBook, TickerPrice};

fn lvl(p: &str, q: &str) -> (String, String) {
    (p.to_string(), q.to_string())
}

#[test]
fn whole_numbers_scale_up() {
    assert_eq!(parse_fixed("0"), Some(0));
    assert_eq!(parse_fixed("1"), Some(SCALE));
    assert_eq!(parse_fixed("007"), Some(7 * SCALE));
    assert_eq!(parse_fixed("50000"), Some(50000 * SCALE));
}

#[test]
fn fractions_fill_to_eight_places() {
    assert_eq!(parse_fixed("100.5"), Some(100 * SCALE + SCALE / 2));
    assert_eq!(parse_fixed("0.00000001"), Some(1));
    assert_eq!(parse_fixed("50000.12345678"), Some(5_000_012_345_678));
    assert_eq!(parse_fixed("2.00000000"), Some(2 * SCALE));
}

#[test]
fn malformed_texts_are_rejected() {
    assert_eq!(parse_fixed(""), None);
    assert_eq!(parse_fixed("."), None);
    assert_eq!(parse_fixed(".5"), None);
    assert_eq!(parse_fixed("5."), None);
    assert_eq!(parse_fixed("1.2.3"), None);
    assert_eq!(parse_fixed("12a"), None);
    assert_eq!(parse_fixed("-1"), None);
    assert_eq!(parse_fixed("1,5"), None);
    assert_eq!(parse_fixed(" 1"), None);
}

#[test]
fn more_than_eight_fraction_digits_are_rejected() {
    assert_eq!(parse_fixed("1.123456789"), None);
    assert_eq!(parse_fixed("1.12345678"), Some(SCALE + 12_345_678));
}

#[test]
fn values_beyond_sixty_four_bits_are_rejected() {
    assert_eq!(parse_fixed("99999999999999999999999999"), None);
    assert_eq!(parse_fixed("184467440737.09551616"), None);
    assert_eq!(parse_fixed("184467440737.09551615"), Some(u64::MAX));
}

#[test]
fn rendering_then_parsing_returns_the_same_units() {
    for units in [0u64, 1, 99, SCALE, SCALE / 2, 123 * SCALE + 4567, u64::MAX] {
        let text = ratio_noti::fixed::scaled_decimal(units as u128, 8, 8);
        assert_eq!(parse_fixed(&text), Some(units));
    }
}

#[test]
fn prices_parse_into_quotes() {
    let t = TickerPrice { symbol: "BTCUSDT".to_string(), price: "50000.00000000".to_string() };
    let p = parse_price(&t).unwrap();
    assert_eq!(p.symbol, "BTCUSDT");
    assert_eq!(p.price, 50000 * SCALE);
}

#[test]
fn zero_and_garbage_prices_fail_with_parse_errors() {
    let zero = TickerPrice { symbol: "X".to_string(), price: "0".to_string() };
    assert_eq!(
        parse_price(&zero).unwrap_err(),
        RatioError::Parse("invalid price value: 0".to_string())
    );
    let garbage = TickerPrice { symbol: "X".to_string(), price: "12..0".to_string() };
    assert_eq!(
        parse_price(&garbage).unwrap_err(),
        RatioError::Parse("invalid price value: 12..0".to_string())
    );
}

#[test]
fn order_books_parse_with_both_sides_ranked() {
    let raw = OrderBook {
        last_update_id: 1,
        bids: vec![lvl("99.5", "1"), lvl("99.0", "2")],
        asks: vec![lvl("100.0", "1"), lvl("100.5", "2")],
    };
    let book = parse_order_book("BTCUSDT", &raw).unwrap();
    assert_eq!(book.symbol, "BTCUSDT");
    assert_eq!(book.best_bid, 99 * SCALE + SCALE / 2);
    assert_eq!(book.best_ask, 100 * SCALE);
    assert_eq!(book.bids, vec![(99 * SCALE + SCALE / 2, SCALE), (99 * SCALE, 2 * SCALE)]);
    assert_eq!(book.asks, vec![(100 * SCALE, SCALE), (100 * SCALE + SCALE / 2, 2 * SCALE)]);
}

#[test]
fn empty_sides_leave_zero_best_prices() {
    let raw = OrderBook { last_update_id: 1, bids: Vec::new(), asks: Vec::new() };
    let book = parse_order_book("X", &raw).unwrap();
    assert_eq!(book.best_bid, 0);
    assert_eq!(book.best_ask, 0);
}

#[test]
fn unranked_or_malformed_books_fail() {
    let unsorted_asks = OrderBook {
        last_update_id: 1,
        bids: Vec::new(),
        asks: vec![lvl("101", "1"), lvl("100", "1")],
    };
    assert_eq!(
        parse_order_book("AAAUSDT", &unsorted_asks).unwrap_err(),
        RatioError::Parse("invalid order book for AAAUSDT".to_string())
    );

    let unsorted_bids = OrderBook {
        last_update_id: 1,
        bids: vec![lvl("99", "1"), lvl("100", "1")],
        asks: Vec::new(),
    };
    assert!(parse_order_book("X", &unsorted_bids).is_err());

    let zero_qty = OrderBook {
        last_update_id: 1,
        bids: Vec::new(),
        asks: vec![lvl("100", "0")],
    };
    assert!(parse_order_book("X", &zero_qty).is_err());

    let bad_number = OrderBook {
        last_update_id: 1,
        bids: vec![lvl("abc", "1")],
        asks: Vec::new(),
    };
    assert!(parse_order_book("X", &bad_number).is_err());

    let equal_asks = OrderBook {
        last_update_id: 1,
        bids: Vec::new(),
        asks: vec![lvl("100", "1"), lvl("100", "1")],
    };
    assert!(parse_order_book("X", &equal_asks).is_err());
}
