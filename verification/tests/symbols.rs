use highres::symbols::{get_token_quote_from_symbol, symbol_plat2std, symbol_std2plat};

#[test]
fn std2plat_binance_swap() {
    assert_eq!(symbol_std2plat("eth_usdt", "binance", "swap"), "ETHUSDT");
}

#[test]
fn std2plat_okx_swap() {
    assert_eq!(symbol_std2plat("eth_usdt", "okx", "swap"), "ETH-USDT-SWAP");
}

#[test]
fn std2plat_okx_spot() {
    assert_eq!(symbol_std2plat("eth_usdt", "okx", "spot"), "ETH-USDT");
}

#[test]
fn std2plat_kucoin() {
    assert_eq!(symbol_std2plat("eth_usdt", "kucoin", "spot"), "ETH-USDT");
    assert_eq!(symbol_std2plat("eth_usdt", "kucoin", "swap"), "ETHUSDTM");
}

#[test]
fn std2plat_gate_keeps_separator() {
    assert_eq!(symbol_std2plat("eth_usdt", "gate", "swap"), "ETH_USDT");
}

#[test]
fn plat2std_each_venue() {
    assert_eq!(symbol_plat2std("ETHUSDT", "binance", "swap"), "eth_usdt");
    assert_eq!(symbol_plat2std("ETHUSDT", "bybit", "spot"), "eth_usdt");
    assert_eq!(symbol_plat2std("ETH-USDT-SWAP", "okx", "swap"), "eth_usdt");
    assert_eq!(symbol_plat2std("ETH-USDT", "okx", "spot"), "eth_usdt");
    assert_eq!(symbol_plat2std("ETH-USDT", "kucoin", "spot"), "eth_usdt");
    assert_eq!(symbol_plat2std("ETHUSDTM", "kucoin", "swap"), "eth_usdt");
    assert_eq!(symbol_plat2std("ETH_USDT", "gate", "swap"), "eth_usdt");
}

#[test]
fn round_trip_through_every_venue() {
    let venues = [
        ("binance", "swap"),
        ("binance", "spot"),
        ("okx", "swap"),
        ("okx", "spot"),
        ("bybit", "swap"),
        ("bitget", "swap"),
        ("kucoin", "spot"),
        ("kucoin", "swap"),
        ("gate", "swap"),
        ("gate", "spot"),
    ];
    for base in ["eth", "btc", "1000pepe", "dot"] {
        let std = format!("{}_usdt", base);
        for (ex, et) in venues {
            let plat = symbol_std2plat(&std, ex, et);
            assert_eq!(symbol_plat2std(&plat, ex, et), std, "{} {} {}", std, ex, et);
        }
    }
}

#[test]
fn token_and_quote() {
    let (token, quote) = get_token_quote_from_symbol("eth_usdt");
    assert_eq!(token, "eth");
    assert_eq!(quote, "usdt");
    let (token, quote) = get_token_quote_from_symbol("a_b_c");
    assert_eq!(token, "a");
    assert_eq!(quote, "b");
}
