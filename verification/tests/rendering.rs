use candle_engine::candle::{Candle, Series};
use candle_engine::dates::{utc_date_text, utc_datetime_text};
use candle_engine::engine::compute_indicators;
use candle_engine::extract::{
    compose_analysis, extract_bitcoin_market_analysis, extract_last_3_data_points,
};
use candle_engine::num::SCALE;
use candle_engine::prompt::generate_trading_recommendation_prompt;
use candle_engine::report::assemble_report;
use candle_engine::sentiment::FearGreedData;
use candle_engine::text::{fmt_fixed2, fmt_fixed2_wide, fmt_u64, split_for_delivery, trim_str};

#[test]
fn fixed_point_formatting_is_exact() {
    assert_eq!(fmt_u64(0), "0");
    assert_eq!(fmt_u64(907), "907");
    assert_eq!(fmt_fixed2(123_45_000_000), "123.45");
    assert_eq!(fmt_fixed2(-250_000_000), "-2.50");
    assert_eq!(fmt_fixed2(SCALE - 1), "0.99");
    assert_eq!(fmt_fixed2(0), "0.00");
    assert_eq!(fmt_fixed2_wide(10_000 * SCALE as i128), "10000.00");
}

#[test]
fn utc_rendering_matches_calendar() {
    // Would fail if the wrapper ignored its argument.
    assert_eq!(utc_date_text(86_400), "1970-01-02");
    assert_eq!(utc_datetime_text(0), "1970-01-01 00:00:00");
    assert_eq!(utc_datetime_text(1_431_648_000), "2015-05-15 00:00:00");
}

#[test]
fn trimming_strips_ascii_whitespace() {
    assert_eq!(trim_str("  hello\n\t"), "hello");
    assert_eq!(trim_str(""), "");
    assert_eq!(trim_str("   "), "");
}

#[test]
fn chunks_concatenate_back_and_respect_the_ceiling() {
    let mut text = String::new();
    for i in 0..500 {
        text.push_str(&format!("line number {} of the analysis\n", i));
    }
    let chunks = split_for_delivery(&text, 1000);
    let mut joined = String::new();
    for c in &chunks {
        assert!(c.chars().count() <= 1000);
        joined.push_str(c);
    }
    assert_eq!(joined, text);
    assert!(chunks.len() > 1);
}

#[test]
fn chunks_prefer_newline_breaks() {
    let text = format!("{}\n{}", "a".repeat(500), "b".repeat(600));
    let chunks = split_for_delivery(&text, 1000);
    // The window [0, 1000) holds a newline past position 100, so the
    // first chunk ends right before it.
    assert_eq!(chunks[0], "a".repeat(500));
}

#[test]
fn prompt_wraps_data_in_template() {
    let p = generate_trading_recommendation_prompt("DATA GOES HERE");
    assert!(p.starts_with("You are a cryptocurrency market analyst"));
    assert!(p.contains("<historical_data>\nDATA GOES HERE\n</historical_data>"));
    assert!(p.ends_with("time horizons."));
}

#[test]
fn market_analysis_extraction_takes_tagged_content() {
    let reply = "preamble <bitcoin_market_analysis>\n The verdict. \n</bitcoin_market_analysis> postamble";
    assert_eq!(extract_bitcoin_market_analysis(reply), "The verdict.");
    // Without tags the whole reply passes through.
    assert_eq!(extract_bitcoin_market_analysis("plain text"), "plain text");
    // An unclosed tag also passes the whole reply through.
    let unclosed = "x <bitcoin_market_analysis> y";
    assert_eq!(extract_bitcoin_market_analysis(unclosed), unclosed);
}

#[test]
fn last_three_data_points_come_from_tagged_section() {
    let prompt = "intro\n<historical_data>\nheader\n2024-01-01 00:00:00: O=$1.00 H=$2.00 L=$0.50 C=$1.50 V=3.00\n2024-01-02 00:00:00: O=$1.50 H=$2.50 L=$1.00 C=$2.00 V=4.00\n2024-01-03 00:00:00: O=$2.00 H=$3.00 L=$1.50 C=$2.50 V=5.00\n2024-01-04 00:00:00: O=$2.50 H=$3.50 L=$2.00 C=$3.00 V=6.00\nnot a data line\n</historical_data>\ntail";
    let got = extract_last_3_data_points(prompt);
    let lines: Vec<&str> = got.lines().collect();
    assert_eq!(lines.len(), 3);
    assert!(lines[0].contains("2024-01-02"));
    assert!(lines[2].contains("2024-01-04"));
}

#[test]
fn last_three_data_points_fall_back_to_notice() {
    assert_eq!(
        extract_last_3_data_points("nothing recognizable"),
        "No data points found in the prompt."
    );
}

#[test]
fn composed_analysis_carries_both_sections() {
    let prompt = "<historical_data>\nx: O=$1.00 H=$1.00 L=$1.00 C=$1.00 V=1.00\n</historical_data>";
    let reply = "<bitcoin_market_analysis>Hold.</bitcoin_market_analysis>";
    let got = compose_analysis(prompt, reply);
    assert!(got.starts_with("=== LAST 3 DATA POINTS ===\n"));
    assert!(got.contains("O=$1.00"));
    assert!(got.contains("=== BITCOIN MARKET ANALYSIS ===\nHold."));
}

#[test]
fn report_has_fixed_section_order() {
    let mut candles = Vec::new();
    for i in 0..40i64 {
        let close = (9_000 + i * 13) * SCALE;
        candles.push(Candle {
            open_time: 1_600_000_000_000 + i as u64 * 14_400_000,
            open: close - SCALE,
            high: close + 2 * SCALE,
            low: close - 2 * SCALE,
            close,
            volume: 100 * SCALE,
        });
    }
    let s = Series { candles };
    let results = compute_indicators(&s);
    let sentiment = vec![FearGreedData {
        value: "31".to_string(),
        value_classification: "Fear".to_string(),
        timestamp: "1700000000".to_string(),
    }];
    let report = assemble_report(&s, &results, &sentiment);
    let i1 = report.find("=== BITCOIN HISTORICAL DATA SUMMARY ===").unwrap();
    let i2 = report
        .find("=== RECENT BITCOIN OHLCV DATA (LAST 24 RECORDS) ===")
        .unwrap();
    let i3 = report.find("=== TECHNICAL INDICATORS ===").unwrap();
    let i4 = report.find("=== FEAR & GREED INDEX ===").unwrap();
    assert!(i1 < i2 && i2 < i3 && i3 < i4);
    assert!(report.contains("Support level: $"));
    assert!(report.contains("2023-11-14: Fear - 31"));
    // 24 recent rows, one per line with the data-line shape.
    assert_eq!(report.matches(": O=$").count(), 24);
}

#[test]
fn empty_series_report_uses_placeholder() {
    let s = Series { candles: Vec::new() };
    let results = compute_indicators(&s);
    assert!(results.is_empty());
    let report = assemble_report(&s, &results, &Vec::new());
    assert!(report.contains("Insufficient data: no candles fetched."));
}

#[test]
fn last_three_data_points_legacy_ohlc_fallback() {
    let prompt = "Bitcoin historical OHLC + Volume data\nDate,Open,High,Low,Close,Volume\nrow one\nrow two\nrow three\nrow four\n=== TECHNICAL INDICATORS ===\nrest";
    let got = extract_last_3_data_points(prompt);
    // The legacy path keeps the last three lines of the section verbatim.
    assert_eq!(got, "row two\nrow three\nrow four\n");
}

#[test]
fn last_three_data_points_legacy_price_fallback() {
    let prompt = "Bitcoin price data (timestamp, price in USD)\nfirst\nsecond\n";
    let got = extract_last_3_data_points(prompt);
    assert_eq!(got, "first\nsecond\n");
}
