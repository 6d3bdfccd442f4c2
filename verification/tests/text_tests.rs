use ratio_noti::config::{Config, DatabaseConfig, MonitoringConfig, RatioPair, TelegramConfig};
use ratio_noti::errors::RatioError;
use ratio_noti::fixed::SCALE;
use ratio_noti::ratio::{calculate_simple_ratio, Ratio};
use ratio_noti::text::{
    compose_pair_update, compose_periodic_update, compose_ratio_alert, compose_slippage_message,
    create_pairs_list, escape_markdown, format_change,
};

fn test_config(pairs: Vec<RatioPair>) -> Config {
    Config {
        telegram: TelegramConfig { token: "bot-token".to_string(), user_id: 42 },
        monitoring: MonitoringConfig {
            check_interval_secs: 60,
            periodic_notification_secs: 3600,
            change_thresholds: vec![500, 1000],
            change_window_secs: 300,
        },
        database: DatabaseConfig { path: "ratios.db".to_string(), retention_days: Some(30) },
        ratio_pairs: pairs,
    }
}

fn pair(name: &str, a: &str, b: &str, vol: Option<u64>) -> RatioPair {
    RatioPair {
        name: name.to_string(),
        symbol_a: a.to_string(),
        symbol_b: b.to_string(),
        analysis_volume: vol,
    }
}

#[test]
fn markdown_escaping_prefixes_reserved_characters() {
    assert_eq!(escape_markdown("a.b_c"), "a\\.b\\_c");
    assert_eq!(escape_markdown("BTC/ETH"), "BTC/ETH");
    assert_eq!(escape_markdown("*bold* [link]!"), "\\*bold\\* \\[link\\]\\!");
    assert_eq!(escape_markdown(""), "");
}

#[test]
fn signed_changes_render_with_two_decimals() {
    assert_eq!(format_change(600), "+6.00");
    assert_eq!(format_change(-250), "-2.50");
    assert_eq!(format_change(0), "+0.00");
    assert_eq!(format_change(12345), "+123.45");
    assert_eq!(format_change(-7), "-0.07");
}

#[test]
fn ratio_alert_renders_exactly() {
    // 1431648000 is 2015-05-15 00:00:00 UTC
    let ratio = Ratio { num: 1060, den: 1000 };
    let msg = compose_ratio_alert("BTC/ETH", &ratio, 600, "5m", 1_431_648_000);
    assert_eq!(
        msg,
        "\u{1F4C8} *Ratio Alert: BTC/ETH*\n\nCurrent Ratio: `1.06000000`\nChange: `+6.00%` in 5m\nTime: 2015-05-15 00:00:00 UTC"
    );
}

#[test]
fn falling_ratio_alert_uses_the_falling_marker() {
    let ratio = Ratio { num: 940, den: 1000 };
    let msg = compose_ratio_alert("BTC/ETH", &ratio, -600, "5m", 1_431_648_000);
    assert!(msg.starts_with("\u{1F4C9} *Ratio Alert: BTC/ETH*"));
    assert!(msg.contains("`-6.00%` in 5m"));
}

#[test]
fn pair_update_line_renders_exactly() {
    let r = calculate_simple_ratio(
        "BTC/ETH",
        "BTCUSDT",
        "ETHUSDT",
        50000 * SCALE,
        3000 * SCALE,
        0,
    );
    assert_eq!(
        compose_pair_update(&r),
        "*BTC/ETH*\n`16.66666667`\nBTCUSDT $50000.00 / ETHUSDT $3000.00"
    );
}

#[test]
fn periodic_digest_joins_updates() {
    let updates = vec!["first".to_string(), "second".to_string()];
    let msg = compose_periodic_update(&updates, 1_431_648_000);
    assert_eq!(
        msg,
        "\u{1F4CA} *Periodic Ratio Update*\n\nfirst\n\nsecond\n\n_Time: 2015-05-15 00:00:00 UTC_"
    );
}

#[test]
fn slippage_message_wraps_the_analysis() {
    let msg = compose_slippage_message("body");
    assert_eq!(msg, "\u{1F50D} *Slippage Analysis*\n\n```\nbody\n```");
}

#[test]
fn pairs_list_numbers_and_escapes_entries() {
    let cfg = test_config(vec![
        pair("BTC_ETH", "BTCUSDT", "ETHUSDT", None),
        pair("SOL/ETH", "SOLUSDT", "ETHUSDT", Some(2 * SCALE)),
    ]);
    let listing = create_pairs_list(&cfg);
    assert_eq!(
        listing,
        "\u{1F4CB} *Configured Ratio Pairs*\n\n\
         1\\. *BTC\\_ETH*\n   BTCUSDT / ETHUSDT\n\n\
         2\\. *SOL/ETH*\n   SOLUSDT / ETHUSDT\n   Volume: 2.00000000\n\n"
    );
}

#[test]
fn valid_config_passes_validation() {
    let cfg = test_config(vec![pair("BTC/ETH", "BTCUSDT", "ETHUSDT", None)]);
    assert!(cfg.validate().is_ok());
}

#[test]
fn empty_token_fails_validation() {
    let mut cfg = test_config(vec![pair("BTC/ETH", "BTCUSDT", "ETHUSDT", None)]);
    cfg.telegram.token = String::new();
    assert_eq!(
        cfg.validate().unwrap_err(),
        RatioError::Config("Telegram token cannot be empty".to_string())
    );
}

#[test]
fn no_pairs_fails_validation() {
    let cfg = test_config(Vec::new());
    assert_eq!(
        cfg.validate().unwrap_err(),
        RatioError::Config("At least one ratio pair must be configured".to_string())
    );
}

#[test]
fn empty_symbol_fails_validation_naming_the_pair() {
    let cfg = test_config(vec![
        pair("BTC/ETH", "BTCUSDT", "ETHUSDT", None),
        pair("BAD", "", "ETHUSDT", None),
    ]);
    assert_eq!(
        cfg.validate().unwrap_err(),
        RatioError::Config("Symbols cannot be empty in ratio pair: BAD".to_string())
    );
}
