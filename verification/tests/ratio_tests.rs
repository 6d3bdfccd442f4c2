use ratio_noti::errors::RatioError;
use ratio_noti::fixed::SCALE;
use ratio_noti::market::OrderBookInfo;
use ratio_noti::ratio::{
    analyze_slippage, calculate_simple_ratio, calculate_volume_based_ratio, OrderSide, Ratio,
};

fn ask_book(symbol: &str, asks: Vec<(u64, u64)>) -> OrderBookInfo {
    let best_ask = asks.first().map(|l| l.0).unwrap_or(0);
    OrderBookInfo {
        symbol: symbol.to_string(),
        best_bid: 0,
        best_ask,
        bids: Vec::new(),
        asks,
    }
}

#[test]
fn simple_ratio_is_exactly_the_price_fraction() {
    // priceA = 50000, priceB = 3000: the ratio is the exact fraction, and its
    // eight-decimal rendering rounds to 16.66666667
    let r = calculate_simple_ratio(
        "BTC/ETH",
        "BTCUSDT",
        "ETHUSDT",
        50000 * SCALE,
        3000 * SCALE,
        1_700_000_000,
    );
    assert_eq!(r.ratio, Ratio { num: 50000 * SCALE, den: 3000 * SCALE });
    assert_eq!(r.ratio.scaled8(), 16_6666_6667u128);
    assert_eq!(r.price_a, 50000 * SCALE);
    assert_eq!(r.price_b, 3000 * SCALE);
    assert_eq!(r.pair_name, "BTC/ETH");
    assert_eq!(r.timestamp, 1_700_000_000);
}

#[test]
fn simple_ratio_summary_renders_exactly() {
    let r = calculate_simple_ratio(
        "BTC/ETH",
        "BTCUSDT",
        "ETHUSDT",
        50000 * SCALE,
        3000 * SCALE,
        0,
    );
    assert_eq!(
        r.format_summary(),
        "BTC/ETH: 16.66666667 (BTCUSDT=$50000.00 / ETHUSDT=$3000.00)"
    );
}

#[test]
fn volume_ratio_combines_effective_prices() {
    let book_a = ask_book("AAAUSDT", vec![(100 * SCALE, 1 * SCALE), (101 * SCALE, 2 * SCALE)]);
    let book_b = ask_book("BBBUSDT", vec![(50 * SCALE, 5 * SCALE)]);
    let r = calculate_volume_based_ratio(
        "AAA/BBB",
        "AAAUSDT",
        "BBBUSDT",
        &book_a,
        &book_b,
        2 * SCALE,
        7,
    )
    .unwrap();
    assert_eq!(r.effective_price_a, 100 * SCALE + SCALE / 2);
    assert_eq!(r.effective_price_b, 50 * SCALE);
    assert_eq!(r.ratio, Ratio { num: 100 * SCALE + SCALE / 2, den: 50 * SCALE });
    assert_eq!(r.slippage_a, (SCALE / 2) as u128);
    assert_eq!(r.slippage_b, 0);
    assert_eq!(r.volume, 2 * SCALE);
    assert_eq!(r.timestamp, 7);
    // ratio 100.5 / 50 = 2.01
    assert_eq!(r.ratio.scaled8(), 2_0100_0000u128);
}

#[test]
fn volume_ratio_propagates_first_insufficiency() {
    let book_a = ask_book("AAAUSDT", vec![(100 * SCALE, 1 * SCALE)]);
    let book_b = ask_book("BBBUSDT", vec![(50 * SCALE, 5 * SCALE)]);
    let err = calculate_volume_based_ratio(
        "AAA/BBB",
        "AAAUSDT",
        "BBBUSDT",
        &book_a,
        &book_b,
        2 * SCALE,
        0,
    )
    .unwrap_err();
    assert_eq!(
        err,
        RatioError::InsufficientLiquidity { requested: 2 * SCALE, available: 1 * SCALE }
    );
}

#[test]
fn slippage_analysis_reports_depth_and_cost() {
    let mut book = ask_book("AAAUSDT", vec![(100 * SCALE, 1 * SCALE), (101 * SCALE, 2 * SCALE)]);
    book.bids = vec![(99 * SCALE, 1 * SCALE)];
    book.best_bid = 99 * SCALE;
    let a = analyze_slippage("AAAUSDT", &book, 2 * SCALE, OrderSide::Buy).unwrap();
    assert_eq!(a.mid_price, (99 * SCALE + 100 * SCALE) / 2);
    assert_eq!(a.effective_price, 100 * SCALE + SCALE / 2);
    assert_eq!(a.slippage_percentage, (SCALE / 2) as u128);
    assert_eq!(a.depth_consumed, 2);
    // 100.5 * 2 at the doubled fixed-point scale
    assert_eq!(a.total_cost, (100 * SCALE + SCALE / 2) as u128 * (2 * SCALE) as u128);
    assert_eq!(a.volume, 2 * SCALE);
}

#[test]
fn slippage_summary_renders_exactly() {
    let mut book = ask_book("AAAUSDT", vec![(100 * SCALE, 1 * SCALE), (101 * SCALE, 2 * SCALE)]);
    book.bids = vec![(99 * SCALE, 1 * SCALE)];
    book.best_bid = 99 * SCALE;
    let a = analyze_slippage("AAAUSDT", &book, 2 * SCALE, OrderSide::Buy).unwrap();
    assert_eq!(
        a.format_summary(),
        "AAAUSDT Buy 2.0000 units:\n  Mid: $99.50 -> Effective: $100.50\n  Slippage: 0.500%\n  Depth consumed: 2 levels\n  Total cost: $201.00"
    );
}

#[test]
fn volume_ratio_summary_renders_exactly() {
    let book_a = ask_book("AAAUSDT", vec![(100 * SCALE, 1 * SCALE), (101 * SCALE, 2 * SCALE)]);
    let book_b = ask_book("BBBUSDT", vec![(50 * SCALE, 5 * SCALE)]);
    let r = calculate_volume_based_ratio(
        "AAA/BBB",
        "AAAUSDT",
        "BBBUSDT",
        &book_a,
        &book_b,
        2 * SCALE,
        0,
    )
    .unwrap();
    assert_eq!(
        r.format_summary(),
        "AAA/BBB: 2.01000000 [Vol: 2.00000000]\n  AAAUSDT eff=$100.50 (slippage: 0.500%)\n  BBBUSDT eff=$50.00 (slippage: 0.000%)"
    );
}
