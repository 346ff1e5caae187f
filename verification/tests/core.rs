use onlyfunding::ArbitrageOpportunity;
use onlyfunding::ExchangeQuotes;
use onlyfunding::ExchangesData;
use onlyfunding::FundingRatesData;
use onlyfunding::RateEntry;
use onlyfunding::classify_status;
use onlyfunding::onlyfundingError;

fn snapshot(rates: Vec<(&str, Vec<(&str, i32)>)>) -> FundingRatesData {
    let mut funding_rates: Vec<ExchangeQuotes> = Vec::new();
    let mut exchanges: Vec<String> = Vec::new();
    for (exchange, entries) in rates {
        exchanges.push(exchange.to_string());
        let mut list: Vec<RateEntry> = Vec::new();
        for (symbol, rate) in entries {
            list.push(RateEntry { symbol: symbol.to_string(), rate });
        }
        funding_rates.push(ExchangeQuotes { exchange: exchange.to_string(), entries: list });
    }
    FundingRatesData {
        symbols: vec!["BTC".to_string(), "ETH".to_string()],
        exchanges: ExchangesData { exchange_names: Vec::new(), exchanges },
        funding_rates,
        oi_rankings: Vec::new(),
        default_oi_rank: "oi".to_string(),
        timestamp: "2024-01-01T00:00:00Z".to_string(),
    }
}

fn pair_of(o: &ArbitrageOpportunity) -> (String, String) {
    (o.exchange1.clone(), o.exchange2.clone())
}

#[test]
fn three_exchanges_sorted_by_spread() {
    // A: 50, B: -30, C: 20 raw units for BTC; threshold 0.01% is raw 1.
    let data = snapshot(vec![
        ("A", vec![("BTC", 50)]),
        ("B", vec![("BTC", -30)]),
        ("C", vec![("BTC", 20)]),
    ]);
    let opps = data.find_arbitrage_opportunities("BTC", 1);
    assert_eq!(opps.len(), 3);
    // Spreads 80 (A-B), 50 (B-C), 30 (A-C), descending.
    assert_eq!(opps[0].spread, 80);
    assert_eq!(opps[1].spread, 50);
    assert_eq!(opps[2].spread, 30);
    assert_eq!(pair_of(&opps[0]), ("A".to_string(), "B".to_string()));
    assert_eq!(pair_of(&opps[1]), ("B".to_string(), "C".to_string()));
    assert_eq!(pair_of(&opps[2]), ("A".to_string(), "C".to_string()));
    // Long leg is always the lower raw rate.
    assert_eq!(opps[0].long_exchange, "B");
    assert_eq!(opps[0].short_exchange, "A");
    assert_eq!(opps[1].long_exchange, "B");
    assert_eq!(opps[1].short_exchange, "C");
    assert_eq!(opps[2].long_exchange, "C");
    assert_eq!(opps[2].short_exchange, "A");
    for o in &opps {
        assert_eq!(o.symbol, "BTC");
    }
}

#[test]
fn fewer_than_two_quoting_exchanges_is_empty() {
    let one = snapshot(vec![("A", vec![("BTC", 50)])]);
    assert!(one.find_arbitrage_opportunities("BTC", 0).is_empty());

    let none = snapshot(vec![]);
    assert!(none.find_arbitrage_opportunities("BTC", 0).is_empty());

    // Two exchanges exist, but only one quotes the symbol.
    let mixed = snapshot(vec![("A", vec![("BTC", 50)]), ("B", vec![("ETH", 7)])]);
    assert!(mixed.find_arbitrage_opportunities("BTC", 0).is_empty());
}

#[test]
fn threshold_boundary_is_inclusive() {
    let data = snapshot(vec![("A", vec![("BTC", 10)]), ("B", vec![("BTC", 50)])]);
    // Spread is exactly 40: included at threshold 40, excluded at 41.
    let at = data.find_arbitrage_opportunities("BTC", 40);
    assert_eq!(at.len(), 1);
    assert_eq!(at[0].spread, 40);
    let above = data.find_arbitrage_opportunities("BTC", 41);
    assert!(above.is_empty());
}

#[test]
fn pair_count_and_order_for_four_exchanges() {
    let data = snapshot(vec![
        ("A", vec![("BTC", 5)]),
        ("B", vec![("BTC", -5)]),
        ("C", vec![("BTC", 30)]),
        ("D", vec![("BTC", 0)]),
    ]);
    // With a threshold of zero nothing is filtered: 4 * 3 / 2 pairs.
    let opps = data.find_arbitrage_opportunities("BTC", 0);
    assert_eq!(opps.len(), 6);
    for w in opps.windows(2) {
        assert!(w[0].spread >= w[1].spread);
    }
    // No exchange paired with itself, no unordered pair twice.
    for o in &opps {
        assert_ne!(o.exchange1, o.exchange2);
    }
    for a in 0..opps.len() {
        for b in (a + 1)..opps.len() {
            let (a1, a2) = pair_of(&opps[a]);
            let (b1, b2) = pair_of(&opps[b]);
            assert!(!((a1 == b1 && a2 == b2) || (a1 == b2 && a2 == b1)));
        }
    }
}

#[test]
fn equal_spreads_all_returned() {
    let data = snapshot(vec![
        ("A", vec![("BTC", 10)]),
        ("B", vec![("BTC", 0)]),
        ("C", vec![("BTC", 20)]),
    ]);
    let opps = data.find_arbitrage_opportunities("BTC", 0);
    assert_eq!(opps.len(), 3);
    assert_eq!(opps[0].spread, 20);
    assert_eq!(opps[1].spread, 10);
    assert_eq!(opps[2].spread, 10);
}

#[test]
fn spread_is_absolute_difference_of_raw_rates() {
    let data = snapshot(vec![("A", vec![("BTC", -7)]), ("B", vec![("BTC", -3)])]);
    let opps = data.find_arbitrage_opportunities("BTC", 0);
    assert_eq!(opps.len(), 1);
    assert_eq!(opps[0].spread, 4);
    assert_eq!(opps[0].rate1, -7);
    assert_eq!(opps[0].rate2, -3);
    assert_eq!(opps[0].long_exchange, "A");
    assert_eq!(opps[0].short_exchange, "B");
}

#[test]
fn get_rate_returns_the_quoted_raw_rate() {
    let data = snapshot(vec![("A", vec![("BTC", 50), ("ETH", -2)]), ("B", vec![("BTC", 9)])]);
    assert_eq!(data.get_rate("A", "BTC").unwrap(), 50);
    assert_eq!(data.get_rate("A", "ETH").unwrap(), -2);
    assert_eq!(data.get_rate("B", "BTC").unwrap(), 9);
}

#[test]
fn get_rate_misses_fail_with_rate_not_found() {
    let data = snapshot(vec![("A", vec![("BTC", 50)])]);
    // Exchange absent from the mapping.
    assert!(matches!(data.get_rate("Z", "BTC"), Err(onlyfundingError::RateNotFound)));
    // Symbol absent under a present exchange.
    assert!(matches!(data.get_rate("A", "DOGE"), Err(onlyfundingError::RateNotFound)));
}

#[test]
fn success_statuses_pass_classification() {
    assert!(classify_status(200, "OK").is_ok());
    assert!(classify_status(204, "No Content").is_ok());
    assert!(classify_status(299, "").is_ok());
}

#[test]
fn non_success_statuses_surface_api_error() {
    match classify_status(500, "Internal Server Error") {
        Err(onlyfundingError::Api(status, reason)) => {
            assert_eq!(status, 500);
            assert_eq!(reason, "Internal Server Error");
        }
        _ => panic!("expected an Api error"),
    }
    assert!(matches!(classify_status(404, "Not Found"), Err(onlyfundingError::Api(404, _))));
    // The 2xx boundary is exact.
    assert!(matches!(classify_status(199, ""), Err(onlyfundingError::Api(199, _))));
    assert!(matches!(classify_status(300, ""), Err(onlyfundingError::Api(300, _))));
}
