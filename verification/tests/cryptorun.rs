use cryptorun::codec::encode_snapshot;
use cryptorun::codec::parse_price_point;
use cryptorun::codec::parse_snapshot;
use cryptorun::config::Config;
use cryptorun::model::PricePoint;
use cryptorun::model::Snapshot;
use cryptorun::project::format_price;
use cryptorun::project::project;
use cryptorun::refresh::build_snapshot;
use cryptorun::refresh::refresh_cycle;
use cryptorun::refresh::resolve_cached;
use cryptorun::refresh::serve_cached;
use cryptorun::select::handle;
use cryptorun::select::Action;

fn point(symbol: &str, price: &str) -> PricePoint {
    PricePoint { symbol: symbol.to_string(), price: price.to_string() }
}

#[test]
fn default_config_values() {
    let c = Config::default();
    assert_eq!(c.prefix, "$");
    assert_eq!(c.max_cache_age, 900);
    assert!(c.max_entries.is_none());
    let expected = ["BTCUSDT", "ETHUSDT", "BNBUSDT", "XRPUSDT", "ADAUSDT", "XMRUSDT", "SOLUSDT"];
    assert_eq!(c.symbols.len(), expected.len());
    for (got, want) in c.symbols.iter().zip(expected.iter()) {
        assert_eq!(got, want);
    }
}

#[test]
fn fresh_cache_is_served_unchanged() {
    // cached snapshot age 10s, threshold 900s: served as it is
    let snap = Snapshot { fetched_at: 1000, points: vec![point("BTCUSDT", "1.0")] };
    let served = serve_cached(Some(snap), 1010, 900).expect("fresh cache must be served");
    assert_eq!(served.fetched_at, 1000);
    assert_eq!(served.points.len(), 1);
    assert_eq!(served.points[0].symbol, "BTCUSDT");
    assert_eq!(served.points[0].price, "1.0");
}

#[test]
fn stale_cache_is_not_served() {
    let snap = Snapshot { fetched_at: 1000, points: vec![point("BTCUSDT", "1.0")] };
    assert!(serve_cached(Some(snap), 1900, 900).is_none());
}

#[test]
fn age_exactly_at_threshold_is_stale() {
    let snap = Snapshot { fetched_at: 1000, points: vec![] };
    assert!(serve_cached(Some(snap), 1900, 900).is_none());
    let snap2 = Snapshot { fetched_at: 1000, points: vec![] };
    assert!(serve_cached(Some(snap2), 1899, 900).is_some());
}

#[test]
fn absent_cache_is_a_miss() {
    assert!(resolve_cached(None, 1000, 900).is_none());
}

#[test]
fn corrupt_cache_is_a_miss() {
    assert!(resolve_cached(Some("not a cache document"), 1000, 900).is_none());
    assert!(resolve_cached(Some(""), 1000, 900).is_none());
    assert!(resolve_cached(Some("{\"age\":10,\"coins\":["), 1000, 900).is_none());
}

#[test]
fn fresh_cache_document_round_trip() {
    let doc = "{\"age\":1000,\"coins\":[{\"symbol\":\"BTCUSDT\",\"price\":\"65000.123\"}]}";
    let served = resolve_cached(Some(doc), 1010, 900).expect("fresh document must be served");
    assert_eq!(served.fetched_at, 1000);
    assert_eq!(served.points.len(), 1);
    assert_eq!(served.points[0].symbol, "BTCUSDT");
    assert_eq!(served.points[0].price, "65000.123");
}

#[test]
fn encode_is_canonical() {
    let snap = Snapshot {
        fetched_at: 5,
        points: vec![point("BTCUSDT", "65000.123"), point("ETHUSDT", "3400.456")],
    };
    let doc = encode_snapshot(&snap);
    assert_eq!(
        doc,
        "{\"age\":5,\"coins\":[{\"symbol\":\"BTCUSDT\",\"price\":\"65000.123\"},{\"symbol\":\"ETHUSDT\",\"price\":\"3400.456\"}]}"
    );
}

#[test]
fn encode_empty_snapshot() {
    let snap = Snapshot { fetched_at: 0, points: vec![] };
    assert_eq!(encode_snapshot(&snap), "{\"age\":0,\"coins\":[]}");
}

#[test]
fn parse_undoes_encode() {
    let snap = Snapshot {
        fetched_at: 1700000000,
        points: vec![point("BTCUSDT", "65000.123"), point("ETHUSDT", "3400.456")],
    };
    let doc = encode_snapshot(&snap);
    let back = parse_snapshot(&doc).expect("own encoding must parse");
    assert_eq!(back.fetched_at, snap.fetched_at);
    assert_eq!(back.points.len(), snap.points.len());
    for (a, b) in back.points.iter().zip(snap.points.iter()) {
        assert_eq!(a.symbol, b.symbol);
        assert_eq!(a.price, b.price);
    }
}

#[test]
fn parse_undoes_encode_empty() {
    let snap = Snapshot { fetched_at: 7, points: vec![] };
    let back = parse_snapshot(&encode_snapshot(&snap)).expect("own encoding must parse");
    assert_eq!(back.fetched_at, 7);
    assert!(back.points.is_empty());
}

#[test]
fn parse_rejects_non_canonical_documents() {
    // trailing garbage
    assert!(parse_snapshot("{\"age\":5,\"coins\":[]} ").is_none());
    // a superfluous leading zero in the age
    assert!(parse_snapshot("{\"age\":007,\"coins\":[]}").is_none());
    // an unterminated symbol string
    assert!(parse_snapshot("{\"age\":5,\"coins\":[{\"symbol\":\"BTC").is_none());
    // whitespace is not canonical
    assert!(parse_snapshot("{\"age\": 5,\"coins\":[]}").is_none());
}

#[test]
fn parse_price_point_accepts_a_quote() {
    let pt = parse_price_point("{\"symbol\":\"BTCUSDT\",\"price\":\"65000.12300000\"}")
        .expect("a well-formed quote must parse");
    assert_eq!(pt.symbol, "BTCUSDT");
    assert_eq!(pt.price, "65000.12300000");
}

#[test]
fn parse_price_point_rejects_malformed_bodies() {
    assert!(parse_price_point("").is_none());
    assert!(parse_price_point("{\"symbol\":\"BTCUSDT\"}").is_none());
    assert!(parse_price_point("{\"code\":-1121,\"msg\":\"Invalid symbol.\"}").is_none());
    assert!(parse_price_point("{\"symbol\":\"BTCUSDT\",\"price\":\"1.5\"} ").is_none());
}

#[test]
fn partial_failure_keeps_the_successes_in_order() {
    // one of two symbols fails: exactly one point remains
    let results = vec![Some(point("BTCUSDT", "65000.123")), None];
    let snap = build_snapshot(42, &results);
    assert_eq!(snap.fetched_at, 42);
    assert_eq!(snap.points.len(), 1);
    assert_eq!(snap.points[0].symbol, "BTCUSDT");
    let entries = project("$", &snap, "$", None);
    assert_eq!(entries.len(), 1);
}

#[test]
fn refresh_cycle_overwrites_with_its_own_time() {
    // the persisted document carries the cycle's time however many failed
    let results = vec![None, Some(point("ETHUSDT", "3400.456")), None];
    let (snap, doc) = refresh_cycle(1234, &results);
    assert_eq!(snap.fetched_at, 1234);
    assert_eq!(snap.points.len(), 1);
    assert_eq!(doc, "{\"age\":1234,\"coins\":[{\"symbol\":\"ETHUSDT\",\"price\":\"3400.456\"}]}");
    let back = parse_snapshot(&doc).unwrap();
    assert_eq!(back.fetched_at, 1234);
}

#[test]
fn all_failures_still_give_a_snapshot() {
    let results: Vec<Option<PricePoint>> = vec![None, None];
    let (snap, doc) = refresh_cycle(99, &results);
    assert_eq!(snap.fetched_at, 99);
    assert!(snap.points.is_empty());
    assert_eq!(doc, "{\"age\":99,\"coins\":[]}");
}

#[test]
fn wrong_prefix_yields_nothing() {
    let snap = Snapshot { fetched_at: 0, points: vec![point("BTCUSDT", "1.0")] };
    assert!(project("btc", &snap, "$", None).is_empty());
    assert!(project("", &snap, "$", None).is_empty());
    assert!(project("#BTC", &snap, "$", Some(5)).is_empty());
}

#[test]
fn query_scenario_selects_and_formats() {
    // cache empty, both fetches succeed, then one typed query
    assert!(resolve_cached(None, 1000, 900).is_none());
    let results = vec![
        Some(point("BTCUSDT", "65000.123")),
        Some(point("ETHUSDT", "3400.456")),
    ];
    let (snap, _doc) = refresh_cycle(1000, &results);
    assert_eq!(snap.points.len(), 2);
    let entries = project("$BTC", &snap, "$", None);
    assert_eq!(entries.len(), 1);
    assert_eq!(entries[0].label, "BTCUSDT");
    assert_eq!(entries[0].display_text.as_deref(), Some("65000.12$"));
}

#[test]
fn bare_prefix_lists_everything() {
    let snap = Snapshot {
        fetched_at: 0,
        points: vec![point("BTCUSDT", "65000.123"), point("ETHUSDT", "3400.456")],
    };
    let entries = project("$", &snap, "$", None);
    assert_eq!(entries.len(), 2);
    assert_eq!(entries[0].label, "BTCUSDT");
    assert_eq!(entries[0].display_text.as_deref(), Some("65000.12$"));
    assert_eq!(entries[1].label, "ETHUSDT");
    assert_eq!(entries[1].display_text.as_deref(), Some("3400.46$"));
}

#[test]
fn cap_keeps_the_first_entries() {
    let snap = Snapshot {
        fetched_at: 0,
        points: vec![point("AAA", "1"), point("BBB", "2"), point("CCC", "3")],
    };
    let entries = project("$", &snap, "$", Some(2));
    assert_eq!(entries.len(), 2);
    assert_eq!(entries[0].label, "AAA");
    assert_eq!(entries[0].display_text.as_deref(), Some("1.00$"));
    assert_eq!(entries[1].label, "BBB");
    assert_eq!(entries[1].display_text.as_deref(), Some("2.00$"));
    let all = project("$", &snap, "$", Some(5));
    assert_eq!(all.len(), 3);
}

#[test]
fn rounding_is_half_away_from_zero_and_deterministic() {
    assert_eq!(format_price("1.005").as_deref(), Some("1.01$"));
    assert_eq!(format_price("1.005").as_deref(), Some("1.01$"));
    assert_eq!(format_price("1.0049999").as_deref(), Some("1.00$"));
    assert_eq!(format_price("9.995").as_deref(), Some("10.00$"));
    assert_eq!(format_price("0.999").as_deref(), Some("1.00$"));
}

#[test]
fn formatting_edge_cases() {
    assert_eq!(format_price("65000.123").as_deref(), Some("65000.12$"));
    assert_eq!(format_price("7").as_deref(), Some("7.00$"));
    assert_eq!(format_price("7.").as_deref(), Some("7.00$"));
    assert_eq!(format_price(".5").as_deref(), Some("0.50$"));
    assert_eq!(format_price("007.5").as_deref(), Some("7.50$"));
}

#[test]
fn unparseable_prices_are_marked_unavailable() {
    assert!(format_price("").is_none());
    assert!(format_price(".").is_none());
    assert!(format_price("abc").is_none());
    assert!(format_price("-1.5").is_none());
    assert!(format_price("1.2.3").is_none());
    assert!(format_price("1e5").is_none());
    // one bad value never breaks the rest of the list
    let snap = Snapshot {
        fetched_at: 0,
        points: vec![point("GOOD", "1.5"), point("BAD", "oops"), point("ALSO", "2")],
    };
    let entries = project("$", &snap, "$", None);
    assert_eq!(entries.len(), 3);
    assert_eq!(entries[0].display_text.as_deref(), Some("1.50$"));
    assert!(entries[1].display_text.is_none());
    assert_eq!(entries[2].display_text.as_deref(), Some("2.00$"));
}

#[test]
fn selection_with_text_is_copied() {
    let snap = Snapshot { fetched_at: 0, points: vec![point("BTCUSDT", "65000.123")] };
    let mut entries = project("$BTC", &snap, "$", None);
    let entry = entries.remove(0);
    match handle(entry) {
        Action::Copy(text) => assert_eq!(text, "65000.12$"),
        Action::Close => panic!("an entry with display text must be copied"),
    }
}

#[test]
fn selection_without_text_closes() {
    let snap = Snapshot { fetched_at: 0, points: vec![point("BAD", "oops")] };
    let mut entries = project("$", &snap, "$", None);
    let entry = entries.remove(0);
    match handle(entry) {
        Action::Copy(_) => panic!("an entry without display text must just close"),
        Action::Close => {}
    }
}
