use candle_engine::candle::{Candle, Series};
use candle_engine::engine::{compute_indicators, support_resistance, IndicatorResult, Label};
use candle_engine::num::SCALE;

fn candle(i: u64, close: i64, volume: i64) -> Candle {
    Candle {
        open_time: 1_600_000_000_000 + i * 14_400_000,
        open: close,
        high: close + SCALE,
        low: close - SCALE,
        close,
        volume,
    }
}

fn series_from_closes(closes: &[i64]) -> Series {
    let mut candles = Vec::new();
    for (i, &c) in closes.iter().enumerate() {
        candles.push(candle(i as u64, c, 100 * SCALE));
    }
    Series { candles }
}

fn find_rsi(results: &[IndicatorResult]) -> Option<(&Vec<i64>, &Label)> {
    for r in results {
        if let IndicatorResult::Rsi { values, label } = r {
            return Some((values, label));
        }
    }
    None
}

#[test]
fn short_series_omits_gated_indicators() {
    let s = series_from_closes(&vec![10 * SCALE; 13]);
    let results = compute_indicators(&s);
    // 13 candles: RSI (needs 14), ATR (14), SMA/EMA/Bollinger (20) and
    // MACD (35) are absent; OBV (2) and support/resistance (1) remain.
    assert!(find_rsi(&results).is_none());
    assert!(results
        .iter()
        .all(|r| !matches!(r, IndicatorResult::Sma { .. })));
    assert!(results
        .iter()
        .all(|r| !matches!(r, IndicatorResult::Macd { .. })));
    assert!(results
        .iter()
        .all(|r| !matches!(r, IndicatorResult::Atr { .. })));
    assert!(results
        .iter()
        .any(|r| matches!(r, IndicatorResult::Obv { .. })));
    assert!(results
        .iter()
        .any(|r| matches!(r, IndicatorResult::SupportResistance { .. })));
}

#[test]
fn fourteen_candles_bring_rsi_and_atr() {
    let s = series_from_closes(&vec![10 * SCALE; 14]);
    let results = compute_indicators(&s);
    assert!(find_rsi(&results).is_some());
    assert!(results
        .iter()
        .any(|r| matches!(r, IndicatorResult::Atr { .. })));
}

#[test]
fn rsi_saturates_at_hundred_for_rising_prices() {
    let closes: Vec<i64> = (0..30).map(|i| (100 + 10 * i) * SCALE).collect();
    let s = series_from_closes(&closes);
    let results = compute_indicators(&s);
    let (values, label) = find_rsi(&results).unwrap();
    assert_eq!(*values.last().unwrap(), 100 * SCALE);
    assert!(matches!(label, Label::Overbought));
}

#[test]
fn rsi_reaches_zero_for_falling_prices() {
    let closes: Vec<i64> = (0..30).map(|i| (1000 - 10 * i) * SCALE).collect();
    let s = series_from_closes(&closes);
    let results = compute_indicators(&s);
    let (values, label) = find_rsi(&results).unwrap();
    assert_eq!(*values.last().unwrap(), 0);
    assert!(matches!(label, Label::Oversold));
}

#[test]
fn rsi_always_within_bounds() {
    let closes: Vec<i64> = (0..60)
        .map(|i| (500 + ((i * 37) % 83) - 41) * SCALE)
        .collect();
    let s = series_from_closes(&closes);
    let results = compute_indicators(&s);
    let (values, _) = find_rsi(&results).unwrap();
    for v in values {
        assert!(0 <= *v && *v <= 100 * SCALE);
    }
}

#[test]
fn macd_histogram_is_line_minus_signal() {
    let closes: Vec<i64> = (0..80)
        .map(|i| (10_000 + ((i * 97) % 211) * 3) * SCALE)
        .collect();
    let s = series_from_closes(&closes);
    let results = compute_indicators(&s);
    let mut seen = false;
    for r in &results {
        if let IndicatorResult::Macd {
            macd,
            signal,
            histogram,
            ..
        } = r
        {
            assert_eq!(macd.len(), histogram.len());
            assert_eq!(signal.len(), histogram.len());
            for k in 0..histogram.len() {
                assert_eq!(histogram[k], macd[k] - signal[k]);
            }
            seen = true;
        }
    }
    assert!(seen);
}

#[test]
fn obv_follows_the_up_down_flat_rule() {
    // Price sequence [10, 12, 11, 11, 13] with volumes of 100 gives the
    // running sums [0, 100, 0, 0, 100].
    let closes = [10, 12, 11, 11, 13];
    let mut candles = Vec::new();
    for (i, &c) in closes.iter().enumerate() {
        candles.push(candle(i as u64, c * SCALE, 100 * SCALE));
    }
    let s = Series { candles };
    let results = compute_indicators(&s);
    let mut seen = false;
    for r in &results {
        if let IndicatorResult::Obv { values, .. } = r {
            let expected: Vec<i128> = vec![
                0,
                100 * SCALE as i128,
                0,
                0,
                100 * SCALE as i128,
            ];
            assert_eq!(values.as_slice(), expected.as_slice());
            seen = true;
        }
    }
    assert!(seen);
}

#[test]
fn bollinger_middle_equals_sma_twenty() {
    let closes: Vec<i64> = (0..40)
        .map(|i| (9_000 + ((i * 53) % 97) * 5) * SCALE)
        .collect();
    let s = series_from_closes(&closes);
    let results = compute_indicators(&s);
    let mut middle_vals = None;
    let mut sma20_vals = None;
    for r in &results {
        match r {
            IndicatorResult::Bollinger { middle, .. } => middle_vals = Some(middle.clone()),
            IndicatorResult::Sma { sma20, .. } => sma20_vals = Some(sma20.clone()),
            _ => {}
        }
    }
    assert_eq!(middle_vals.unwrap(), sma20_vals.unwrap());
}

#[test]
fn support_resistance_of_small_series() {
    // Closes [5, 3, 9, 1, 7] yield support 1 and resistance 9.
    let closes: Vec<i64> = [5, 3, 9, 1, 7].iter().map(|v| v * SCALE).collect();
    let (support, resistance) = support_resistance(&closes);
    assert_eq!(support, 1 * SCALE);
    assert_eq!(resistance, 9 * SCALE);
}

#[test]
fn support_resistance_empty_is_zero() {
    let closes: Vec<i64> = Vec::new();
    assert_eq!(support_resistance(&closes), (0, 0));
}

#[test]
fn long_series_matches_float_reference() {
    // 250 synthetic candles: the 200-period averages and the long-term
    // cross label must match an independently computed floating-point
    // reference within 1e-6 relative tolerance.
    let closes_f: Vec<f64> = (0..250)
        .map(|i| 10_000.0 + ((i * 73) % 997) as f64 + (i as f64) * 2.5)
        .collect();
    let closes: Vec<i64> = closes_f
        .iter()
        .map(|v| (v * SCALE as f64).round() as i64)
        .collect();
    let exact: Vec<f64> = closes.iter().map(|v| *v as f64 / SCALE as f64).collect();
    let s = series_from_closes(&closes);
    let results = compute_indicators(&s);

    let sma_ref = |w: usize| -> f64 {
        let tail = &exact[exact.len() - w..];
        tail.iter().sum::<f64>() / w as f64
    };
    let ema_ref = |n: usize| -> f64 {
        let mut e = exact[0];
        for v in &exact[1..] {
            e = (2.0 * v + (n as f64 - 1.0) * e) / (n as f64 + 1.0);
        }
        e
    };

    let mut checked_sma = false;
    let mut checked_ema = false;
    for r in &results {
        match r {
            IndicatorResult::Sma {
                sma50,
                sma200,
                label,
                ..
            } => {
                let got = *sma200.last().unwrap() as f64 / SCALE as f64;
                let want = sma_ref(200);
                assert!((got - want).abs() / want.abs() < 1e-6);
                let got50 = *sma50.last().unwrap() as f64 / SCALE as f64;
                let want50 = sma_ref(50);
                assert!((got50 - want50).abs() / want50.abs() < 1e-6);
                if want50 > want {
                    assert!(matches!(label, Label::GoldenCross));
                } else {
                    assert!(matches!(label, Label::DeathCross));
                }
                checked_sma = true;
            }
            IndicatorResult::Ema { ema200, .. } => {
                let got = *ema200.last().unwrap() as f64 / SCALE as f64;
                let want = ema_ref(200);
                assert!((got - want).abs() / want.abs() < 1e-6);
                checked_ema = true;
            }
            _ => {}
        }
    }
    assert!(checked_sma && checked_ema);
}
