use ratio_noti::engine::{calculate_depth_consumed, calculate_effective_price};
use ratio_noti::errors::RatioError;
use ratio_noti::fixed::SCALE;
use ratio_noti::market::OrderBookInfo;
use ratio_noti::ratio::OrderSide;

fn ask_book(asks: Vec<(u64, u64)>) -> OrderBookInfo {
    let best_ask = asks.first().map(|l| l.0).unwrap_or(0);
    OrderBookInfo {
        symbol: "TESTUSDT".to_string(),
        best_bid: 0,
        best_ask,
        bids: Vec::new(),
        asks,
    }
}

fn bid_book(bids: Vec<(u64, u64)>) -> OrderBookInfo {
    let best_bid = bids.first().map(|l| l.0).unwrap_or(0);
    OrderBookInfo {
        symbol: "TESTUSDT".to_string(),
        best_bid,
        best_ask: 0,
        bids,
        asks: Vec::new(),
    }
}

#[test]
fn buy_fill_across_two_levels() {
    // asks (100, 1), (101, 2); buying 2 fills 1@100 + 1@101:
    // effective price 100.5, slippage 0.5%, depth consumed 2
    let book = ask_book(vec![(100 * SCALE, 1 * SCALE), (101 * SCALE, 2 * SCALE)]);
    let (eff, slip) = calculate_effective_price(&book, 2 * SCALE, OrderSide::Buy).unwrap();
    assert_eq!(eff, 100 * SCALE + SCALE / 2);
    assert_eq!(slip, (SCALE / 2) as u128);
    let depth = calculate_depth_consumed(&book.asks, 2 * SCALE);
    assert_eq!(depth, 2);
}

#[test]
fn insufficient_liquidity_reports_requested_and_available() {
    // asks (100, 1), (101, 1); buying 5 fails after scanning the whole book
    let book = ask_book(vec![(100 * SCALE, 1 * SCALE), (101 * SCALE, 1 * SCALE)]);
    let err = calculate_effective_price(&book, 5 * SCALE, OrderSide::Buy).unwrap_err();
    assert_eq!(
        err,
        RatioError::InsufficientLiquidity { requested: 5 * SCALE, available: 2 * SCALE }
    );
}

#[test]
fn zero_volume_fills_at_best_price() {
    let book = ask_book(vec![(100 * SCALE, 1 * SCALE)]);
    let (eff, slip) = calculate_effective_price(&book, 0, OrderSide::Buy).unwrap();
    assert_eq!(eff, 100 * SCALE);
    assert_eq!(slip, 0);
    assert_eq!(calculate_depth_consumed(&book.asks, 0), 0);
}

#[test]
fn single_level_fill_has_no_slippage() {
    let book = ask_book(vec![(250 * SCALE, 10 * SCALE)]);
    let (eff, slip) = calculate_effective_price(&book, 3 * SCALE, OrderSide::Buy).unwrap();
    assert_eq!(eff, 250 * SCALE);
    assert_eq!(slip, 0);
}

#[test]
fn sell_walks_bids_downward() {
    // bids (100, 1), (99, 1), best first descending; selling 2 realizes 99.5
    let book = bid_book(vec![(100 * SCALE, 1 * SCALE), (99 * SCALE, 1 * SCALE)]);
    let (eff, slip) = calculate_effective_price(&book, 2 * SCALE, OrderSide::Sell).unwrap();
    assert_eq!(eff, 99 * SCALE + SCALE / 2);
    // |99.5 - 100| / 100 * 100 = 0.5%
    assert_eq!(slip, (SCALE / 2) as u128);
}

#[test]
fn effective_price_non_decreasing_in_volume() {
    let book = ask_book(vec![
        (100 * SCALE, 1 * SCALE),
        (105 * SCALE, 2 * SCALE),
        (111 * SCALE, 3 * SCALE),
    ]);
    let mut last = 0u64;
    for units in [SCALE / 2, SCALE, 2 * SCALE, 4 * SCALE, 6 * SCALE] {
        let (eff, _) = calculate_effective_price(&book, units, OrderSide::Buy).unwrap();
        assert!(eff >= last);
        last = eff;
    }
}

#[test]
fn depth_walk_counts_full_level_quantities() {
    // the depth report subtracts each level's full quantity: buying exactly
    // the first level's size touches one level
    let asks = vec![(100 * SCALE, 2 * SCALE), (101 * SCALE, 2 * SCALE)];
    assert_eq!(calculate_depth_consumed(&asks, 2 * SCALE), 1);
    assert_eq!(calculate_depth_consumed(&asks, 2 * SCALE + 1), 2);
    // a request beyond the whole book still only counts its levels
    assert_eq!(calculate_depth_consumed(&asks, 100 * SCALE), 2);
}

#[test]
fn empty_book_fails_for_any_positive_volume() {
    let book = ask_book(Vec::new());
    let err = calculate_effective_price(&book, 1, OrderSide::Buy).unwrap_err();
    assert_eq!(err, RatioError::InsufficientLiquidity { requested: 1, available: 0 });
}
