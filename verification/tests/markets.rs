use geyser_services::market::{parse_market_keys, InvalidMarketKey, MarketConfig, OrderBookSides};
use geyser_services::pubkey::Pubkey;

fn key(n: u8) -> Pubkey {
    Pubkey { bytes: [n; 32] }
}

fn market(name: &str, bids_key: String, asks_key: String) -> MarketConfig {
    MarketConfig {
        name: name.to_string(),
        base_decimals: 9,
        quote_decimals: 6,
        base_lot_size: 10_000_000,
        quote_lot_size: 100,
        bids_key,
        asks_key,
    }
}

#[test]
fn both_sides_of_each_market_are_followed() {
    let markets = vec![
        market("SOL-PERP", key(1).to_text(), key(2).to_text()),
        market("BTC-PERP", key(3).to_text(), key(4).to_text()),
    ];
    let sides = OrderBookSides::new(&markets).ok().unwrap();
    let expected = [
        (key(1), "SOL-PERP", "bids"),
        (key(2), "SOL-PERP", "asks"),
        (key(3), "BTC-PERP", "bids"),
        (key(4), "BTC-PERP", "asks"),
    ];
    for (pk, name, side) in expected {
        let meta = sides.meta(&pk).unwrap();
        assert_eq!(meta.market, name);
        assert_eq!(meta.side, side);
    }
    assert!(sides.meta(&key(5)).is_none());
}

#[test]
fn the_last_name_of_an_account_counts() {
    let markets = vec![
        market("A", key(1).to_text(), key(2).to_text()),
        market("B", key(2).to_text(), key(2).to_text()),
    ];
    let sides = OrderBookSides::new(&markets).ok().unwrap();
    assert_eq!(sides.meta(&key(1)).unwrap().market, "A");
    assert_eq!(sides.meta(&key(2)).unwrap().market, "B");
    assert_eq!(sides.meta(&key(2)).unwrap().side, "asks");
}

#[test]
fn the_first_invalid_key_is_named() {
    let good = market("A", key(1).to_text(), key(2).to_text());
    let bad_bids = market("B", "bad".to_string(), "bad".to_string());
    let bad_asks = market("C", key(3).to_text(), String::new());
    assert_eq!(
        OrderBookSides::new(&vec![good.clone(), bad_asks.clone(), bad_bids.clone()]).err(),
        Some(InvalidMarketKey::Asks { market: 1 })
    );
    assert_eq!(
        OrderBookSides::new(&vec![good.clone(), bad_bids, bad_asks]).err(),
        Some(InvalidMarketKey::Bids { market: 1 })
    );
    assert!(OrderBookSides::new(&vec![good]).is_ok());
}

#[test]
fn market_keys_come_in_order() {
    let markets = vec![
        market("A", key(9).to_text(), key(8).to_text()),
        market("B", key(7).to_text(), key(6).to_text()),
    ];
    assert_eq!(parse_market_keys(&markets), Ok(vec![(key(9), key(8)), (key(7), key(6))]));
}

#[test]
fn no_markets_follow_nothing() {
    let sides = OrderBookSides::new(&vec![]).ok().unwrap();
    assert!(sides.meta(&key(0)).is_none());
}

#[test]
fn sides_can_be_built_from_keys() {
    let markets = vec![market("A", String::new(), String::new())];
    let sides = OrderBookSides::from_keys(&markets, &vec![(key(1), key(2))]);
    assert_eq!(sides.meta(&key(1)).unwrap().side, "bids");
    assert_eq!(sides.meta(&key(2)).unwrap().side, "asks");
}
