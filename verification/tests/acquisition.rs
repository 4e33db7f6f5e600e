use candle_engine::candle::{merge_pages, Candle};
use candle_engine::errors::FetchError;
use candle_engine::paging::Paginator;
use candle_engine::parse::{
    convert_rows, field_to_fixed, last_close_time, parse_fixed, parse_u64, RawField,
};
use candle_engine::num::SCALE;
use candle_engine::sentiment::{resolve_sentiment, FearGreedData};
use candle_engine::engine::{compute_indicators, IndicatorResult};

fn candle_at(t: u64, close: i64) -> Candle {
    Candle {
        open_time: t,
        open: close,
        high: close,
        low: close,
        close,
        volume: SCALE,
    }
}

#[test]
fn merge_sorts_and_drops_duplicate_times() {
    // Pages out of order and overlapping at the boundary: the merge is
    // strictly ascending and keeps the first occurrence of each time.
    let input = vec![
        candle_at(300, 1 * SCALE),
        candle_at(100, 2 * SCALE),
        candle_at(300, 9 * SCALE),
        candle_at(200, 3 * SCALE),
        candle_at(100, 8 * SCALE),
    ];
    let merged = merge_pages(&input);
    let times: Vec<u64> = merged.candles.iter().map(|c| c.open_time).collect();
    assert_eq!(times, vec![100, 200, 300]);
    for w in merged.candles.windows(2) {
        assert!(w[0].open_time < w[1].open_time);
    }
    // First occurrences kept: time 300 came first with close 1, time 100
    // with close 2.
    assert_eq!(merged.candles[0].close, 2 * SCALE);
    assert_eq!(merged.candles[2].close, 1 * SCALE);
}

#[test]
fn paginator_stops_on_short_page() {
    let mut p = Paginator::new(0, 10_000, 1000);
    assert_eq!(p.next_request(), Some((0, 10_000)));
    p.on_page(999, Some(5_000));
    assert!(p.done);
    assert!(!p.truncated);
    assert_eq!(p.next_request(), None);
}

#[test]
fn paginator_stops_on_empty_page() {
    let mut p = Paginator::new(0, 10_000, 1000);
    p.on_page(0, None);
    assert!(p.done);
}

#[test]
fn paginator_advances_past_last_close_time() {
    let mut p = Paginator::new(0, 10_000_000, 1000);
    p.on_page(1000, Some(3_999));
    assert!(!p.done);
    assert_eq!(p.next_request(), Some((4_000, 10_000_000)));
    assert_eq!(p.requests_made, 1);
}

#[test]
fn paginator_never_loops_without_progress() {
    let mut p = Paginator::new(5_000, 10_000_000, 1000);
    // A full page whose close time lies before the window start would not
    // advance: the fetch ends as truncated instead of looping.
    p.on_page(1000, Some(10));
    assert!(p.done);
    assert!(p.truncated);
}

#[test]
fn paginator_failure_keeps_partial_result() {
    let mut p = Paginator::new(0, 10_000_000, 1000);
    p.on_page(1000, Some(3_999));
    p.on_failure();
    assert!(p.done);
    assert!(p.truncated);
    assert_eq!(p.requests_made, 2);
}

#[test]
fn parse_fixed_accepts_plain_decimals() {
    assert_eq!(parse_fixed("123.45"), Some(123_45_000_000));
    assert_eq!(parse_fixed("0.00000001"), Some(1));
    assert_eq!(parse_fixed("-2.5"), Some(-250_000_000));
    assert_eq!(parse_fixed("42"), Some(42 * SCALE));
}

#[test]
fn parse_fixed_rejects_other_shapes() {
    assert_eq!(parse_fixed(""), None);
    assert_eq!(parse_fixed("abc"), None);
    assert_eq!(parse_fixed("1.2.3"), None);
    assert_eq!(parse_fixed("1."), None);
    assert_eq!(parse_fixed(".5"), None);
    assert_eq!(parse_fixed("1e3"), None);
    // Beyond the representable magnitude.
    assert_eq!(parse_fixed("99999999999999999999"), None);
}

#[test]
fn parse_u64_reads_whole_numbers() {
    assert_eq!(parse_u64("1499040000000"), Some(1_499_040_000_000));
    assert_eq!(parse_u64(""), None);
    assert_eq!(parse_u64("12.5"), None);
    assert_eq!(parse_u64("18446744073709551615"), Some(u64::MAX));
    assert_eq!(parse_u64("18446744073709551616"), None);
}

#[test]
fn field_parsing_falls_back_to_zero() {
    assert_eq!(field_to_fixed(&RawField::Text("oops".to_string())), 0);
    assert_eq!(field_to_fixed(&RawField::Other), 0);
    assert_eq!(
        field_to_fixed(&RawField::Number("7.25".to_string())),
        725_000_000
    );
    assert_eq!(
        field_to_fixed(&RawField::Text("7.25".to_string())),
        725_000_000
    );
}

fn num(s: &str) -> RawField {
    RawField::Number(s.to_string())
}

fn txt(s: &str) -> RawField {
    RawField::Text(s.to_string())
}

#[test]
fn convert_rows_reads_fixed_positions_and_skips_short_rows() {
    let rows = vec![
        vec![
            num("1499040000000"),
            txt("0.01634790"),
            txt("0.80000000"),
            txt("0.01575800"),
            txt("0.01577100"),
            txt("148976.11427815"),
            num("1499054399999"),
        ],
        vec![num("1"), txt("2")],
    ];
    let out = convert_rows(&rows);
    assert_eq!(out.len(), 1);
    assert_eq!(out[0].open_time, 1_499_040_000_000);
    assert_eq!(out[0].open, 1_634_790);
    assert_eq!(out[0].high, 80_000_000);
    assert_eq!(out[0].low, 1_575_800);
    assert_eq!(out[0].close, 1_577_100);
    assert_eq!(out[0].volume, 14_897_611_427_815);
    assert_eq!(last_close_time(&rows), None); // last row too short
    let rows2 = vec![rows[0].clone()];
    assert_eq!(last_close_time(&rows2), Some(1_499_054_399_999));
}

#[test]
fn sentiment_surfaces_provider_errors() {
    let pts = vec![FearGreedData {
        value: "25".to_string(),
        value_classification: "Extreme Fear".to_string(),
        timestamp: "1700000000".to_string(),
    }];
    match resolve_sentiment(pts, Some("rate limited".to_string())) {
        Err(FetchError::Provider(m)) => assert_eq!(m, "rate limited"),
        _ => panic!("expected a provider error"),
    }
    let pts2 = vec![FearGreedData {
        value: "60".to_string(),
        value_classification: "Greed".to_string(),
        timestamp: "1700000000".to_string(),
    }];
    let ok = resolve_sentiment(pts2, None).unwrap();
    assert_eq!(ok.len(), 1);
    assert_eq!(ok[0].value, "60");
}

#[test]
fn fetch_errors_describe_themselves() {
    assert_eq!(
        FetchError::Transport("status 500".to_string()).describe(),
        "transport error: status 500"
    );
    assert_eq!(
        FetchError::EmptyResult.describe(),
        "empty result from first page"
    );
}

#[test]
fn pipeline_from_pages_to_indicators() {
    // Two overlapping pages of raw rows, driven through conversion, the
    // pagination cursor, the merge, and the engine.
    let mut pager = Paginator::new(0, 1_000_000, 3);
    let mut collected: Vec<Candle> = Vec::new();
    let pages: Vec<Vec<Vec<RawField>>> = vec![
        (0..3)
            .map(|i| {
                vec![
                    RawField::Number(format!("{}", i * 1000)),
                    RawField::Text("10.0".to_string()),
                    RawField::Text("11.0".to_string()),
                    RawField::Text("9.0".to_string()),
                    RawField::Text(format!("{}.0", 10 + i)),
                    RawField::Text("5.0".to_string()),
                    RawField::Number(format!("{}", i * 1000 + 999)),
                ]
            })
            .collect(),
        (2..4)
            .map(|i| {
                vec![
                    RawField::Number(format!("{}", i * 1000)),
                    RawField::Text("10.0".to_string()),
                    RawField::Text("11.0".to_string()),
                    RawField::Text("9.0".to_string()),
                    RawField::Text(format!("{}.0", 20 + i)),
                    RawField::Text("5.0".to_string()),
                    RawField::Number(format!("{}", i * 1000 + 999)),
                ]
            })
            .collect(),
    ];
    for page in &pages {
        assert!(pager.next_request().is_some());
        let n = page.len();
        let ct = last_close_time(page);
        let mut candles = convert_rows(page);
        collected.append(&mut candles);
        pager.on_page(n, ct);
    }
    let merged = merge_pages(&collected);
    // Times 0, 1000, 2000, 3000; the overlapping time 2000 keeps the
    // close of the first page.
    assert_eq!(merged.candles.len(), 4);
    assert_eq!(merged.candles[2].close, 12 * SCALE);
    assert_eq!(merged.candles[3].close, 23 * SCALE);
    let results = compute_indicators(&merged);
    assert!(results
        .iter()
        .any(|r| matches!(r, IndicatorResult::Obv { .. })));
    assert!(results
        .iter()
        .any(|r| matches!(r, IndicatorResult::SupportResistance { .. })));
}
