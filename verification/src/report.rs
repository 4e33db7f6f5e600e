//! The report assembler: renders the series, the indicator results and
//! the sentiment series into one structured text artifact with fixed
//! section ordering, never failing and using placeholder text where a
//! section has nothing to show.

use vstd::prelude::*;
use vstd::string::StringExecFns;
use crate::candle::{Candle, Series};
use crate::engine::{closes_of, vols_of, highs_of, lows_of, IndicatorResult, Label};
use crate::indicators::{seq_sum, sq_devs, sqrt_floor, seq_min, seq_max,
    lemma_sqrt_floor_unique};
use crate::num::{VAL_LIMIT, div_floor, isqrt, scaled_percent, spec_scaled_percent, lemma_div_le,
    lemma_div_ge};
use crate::text::{spec_fmt_fixed2, fmt_fixed2, fmt_fixed2_wide};
use crate::dates::{utc_datetime_text_of, utc_date_text_of, utc_datetime_text, utc_date_text};
use crate::sentiment::FearGreedData;

verus! {

/// The summary-statistics section: averages, extremes, spread, and the
/// 30- and 7-day changes once enough history exists.
pub open spec fn summary_text(c: Seq<Candle>) -> Seq<char> {
    let header = "=== BITCOIN HISTORICAL DATA SUMMARY ===\n"@;
    if c.len() == 0 {
        header + "Insufficient data: no candles fetched.\n"@
    } else {
        let p = closes_of(c);
        let avg = seq_sum(p) / (c.len() as int);
        let hi = seq_max(highs_of(c));
        let lo = seq_min(lows_of(c));
        let sd = sqrt_floor(seq_sum(sq_devs(p, avg)) / (c.len() as int));
        let avgvol = seq_sum(vols_of(c)) / (c.len() as int);
        let base = header + "\nKey Statistics:\n"@ + "Average Price: $"@ + spec_fmt_fixed2(avg)
            + "\n"@ + "All-Time High: $"@ + spec_fmt_fixed2(hi) + "\n"@ + "All-Time Low: $"@
            + spec_fmt_fixed2(lo) + "\n"@ + "Price Range: $"@ + spec_fmt_fixed2(hi - lo) + " ($"@
            + spec_fmt_fixed2(lo) + " to $"@ + spec_fmt_fixed2(hi) + ")\n"@
            + "Price Volatility (Std Dev): $"@ + spec_fmt_fixed2(sd) + " ("@ + spec_fmt_fixed2(
            spec_scaled_percent(sd, avg),
        ) + "%)\n"@ + "Average Volume: "@ + spec_fmt_fixed2(avgvol) + "\n"@;
        if c.len() >= 30 {
            let cur = p[c.len() - 1];
            let p30 = p[c.len() - 30];
            let p7 = p[c.len() - 7];
            base + "30-Day Price Change: "@ + spec_fmt_fixed2(spec_scaled_percent(cur - p30, p30))
                + "%\n"@ + "7-Day Price Change: "@ + spec_fmt_fixed2(
                spec_scaled_percent(cur - p7, p7),
            ) + "%\n"@
        } else {
            base
        }
    }
}

/// Render the summary-statistics section.
pub fn summary_section(s: &Series) -> (r: String)
    requires
        s.wf(),
    ensures
        r@ == summary_text(s.candles@),
{
    let ghost cs = s.candles@;
    let n = s.candles.len();
    let mut out = String::new();
    out.append("=== BITCOIN HISTORICAL DATA SUMMARY ===\n");
    if n == 0 {
        out.append("Insufficient data: no candles fetched.\n");
        proof {
            assert(out@ =~= summary_text(cs));
        }
        return out;
    }
    // One pass for the sums and extremes.
    let mut sumclose: i128 = 0;
    let mut sumvol: i128 = 0;
    let mut hi: i64 = s.candles[0].high;
    let mut lo: i64 = s.candles[0].low;
    let mut i: usize = 0;
    proof {
        assert(closes_of(cs).take(0) =~= Seq::<int>::empty());
        assert(vols_of(cs).take(0) =~= Seq::<int>::empty());
        assert(highs_of(cs).take(1) =~= seq![cs[0].high as int]);
        assert(lows_of(cs).take(1) =~= seq![cs[0].low as int]);
    }
    while i < n
        invariant
            i <= n,
            1 <= n == cs.len() <= crate::candle::MAX_SERIES_LEN,
            s.candles@ == cs,
            crate::candle::all_wf(cs),
            sumclose == seq_sum(closes_of(cs).take(i as int)),
            sumvol == seq_sum(vols_of(cs).take(i as int)),
            -(i as int) * (VAL_LIMIT as int) <= sumclose <= (i as int) * (VAL_LIMIT as int),
            -(i as int) * (VAL_LIMIT as int) <= sumvol <= (i as int) * (VAL_LIMIT as int),
            hi as int == seq_max(highs_of(cs).take(if i == 0 { 1int } else { i as int })),
            lo as int == seq_min(lows_of(cs).take(if i == 0 { 1int } else { i as int })),
            -VAL_LIMIT <= hi <= VAL_LIMIT,
            -VAL_LIMIT <= lo <= VAL_LIMIT,
        decreases n - i,
    {
        let c = s.candles[i];
        proof {
            assert(cs[i as int].wf());
            assert(closes_of(cs).take(i as int + 1).drop_last() =~= closes_of(cs).take(i as int));
            assert(closes_of(cs).take(i as int + 1).last() == c.close as int);
            assert(vols_of(cs).take(i as int + 1).drop_last() =~= vols_of(cs).take(i as int));
            assert(vols_of(cs).take(i as int + 1).last() == c.volume as int);
            assert((i as int + 1) * (VAL_LIMIT as int) == (i as int) * (VAL_LIMIT as int)
                + VAL_LIMIT) by (nonlinear_arith);
            if i > 0 {
                assert(highs_of(cs).take(i as int + 1).drop_last() =~= highs_of(cs).take(i as int));
                assert(highs_of(cs).take(i as int + 1).last() == c.high as int);
                assert(lows_of(cs).take(i as int + 1).drop_last() =~= lows_of(cs).take(i as int));
                assert(lows_of(cs).take(i as int + 1).last() == c.low as int);
            }
        }
        sumclose = sumclose + (c.close as i128);
        sumvol = sumvol + (c.volume as i128);
        if i > 0 {
            if c.high > hi {
                hi = c.high;
            }
            if c.low < lo {
                lo = c.low;
            }
        }
        i = i + 1;
    }
    proof {
        assert(closes_of(cs).take(n as int) =~= closes_of(cs));
        assert(vols_of(cs).take(n as int) =~= vols_of(cs));
        assert(highs_of(cs).take(n as int) =~= highs_of(cs));
        assert(lows_of(cs).take(n as int) =~= lows_of(cs));
        assert((n as int) * (VAL_LIMIT as int) <= 1_000_000_000_000_000_000_000)
            by (nonlinear_arith)
            requires
                n as int <= 1_000_000,
        {}
        lemma_div_le(sumclose as int, n as int, VAL_LIMIT as int);
        lemma_div_ge(sumclose as int, n as int, -(VAL_LIMIT as int));
        lemma_div_le(sumvol as int, n as int, VAL_LIMIT as int);
        lemma_div_ge(sumvol as int, n as int, -(VAL_LIMIT as int));
        assert((n as int) * (VAL_LIMIT as int) >= sumclose && (n as int) * (-(VAL_LIMIT as int))
            <= sumclose) by (nonlinear_arith)
            requires
                -(n as int) * (VAL_LIMIT as int) <= sumclose as int <= (n as int) * (
                VAL_LIMIT as int),
        {}
        assert((n as int) * (VAL_LIMIT as int) >= sumvol && (n as int) * (-(VAL_LIMIT as int))
            <= sumvol) by (nonlinear_arith)
            requires
                -(n as int) * (VAL_LIMIT as int) <= sumvol as int <= (n as int) * (
                VAL_LIMIT as int),
        {}
    }
    let avg = div_floor(sumclose, n as i128) as i64;
    let avgvol = div_floor(sumvol, n as i128) as i64;
    // Second pass for the variance around the average close.
    let ghost devs = sq_devs(closes_of(cs), avg as int);
    let mut sumsq: i128 = 0;
    let mut j: usize = 0;
    proof {
        assert(devs.take(0) =~= Seq::<int>::empty());
    }
    while j < n
        invariant
            j <= n,
            1 <= n == cs.len() <= crate::candle::MAX_SERIES_LEN,
            s.candles@ == cs,
            crate::candle::all_wf(cs),
            -VAL_LIMIT <= avg <= VAL_LIMIT,
            devs == sq_devs(closes_of(cs), avg as int),
            sumsq == seq_sum(devs.take(j as int)),
            0 <= sumsq <= (j as int) * 4_000_000_000_000_000_000_000_000_000_000,
        decreases n - j,
    {
        let c = s.candles[j];
        let d: i64 = c.close - avg;
        proof {
            assert(cs[j as int].wf());
            assert(0 <= (d as int) * (d as int) <= 4_000_000_000_000_000_000_000_000_000_000)
                by (nonlinear_arith)
                requires
                    -2_000_000_000_000_000 <= d as int <= 2_000_000_000_000_000,
            {}
            assert((j as int) * 4_000_000_000_000_000_000_000_000_000_000 <= 1_000_000
                * 4_000_000_000_000_000_000_000_000_000_000) by (nonlinear_arith)
                requires
                    j as int <= 1_000_000,
            {}
            assert((j as int + 1) * 4_000_000_000_000_000_000_000_000_000_000 == (j as int)
                * 4_000_000_000_000_000_000_000_000_000_000
                + 4_000_000_000_000_000_000_000_000_000_000) by (nonlinear_arith);
        }
        let dd: i128 = (d as i128) * (d as i128);
        proof {
            assert(devs.take(j as int + 1).drop_last() =~= devs.take(j as int));
            assert(devs[j as int] == dd);
            assert(devs.take(j as int + 1).last() == dd);
        }
        sumsq = sumsq + dd;
        j = j + 1;
    }
    proof {
        assert(devs.take(n as int) =~= devs);
        assert((n as int) * 4_000_000_000_000_000_000_000_000_000_000
            <= 4_000_000_000_000_000_000_000_000_000_000_000_000) by (nonlinear_arith)
            requires
                n as int <= 1_000_000,
        {}
        lemma_div_le(sumsq as int, n as int, 4_000_000_000_000_000_000_000_000_000_000_000_000i128 as int);
        vstd::arithmetic::div_mod::lemma_div_pos_is_pos(sumsq as int, n as int);
        assert((n as int) * 4_000_000_000_000_000_000_000_000_000_000_000_000 >= sumsq)
            by (nonlinear_arith)
            requires
                sumsq as int <= (n as int) * 4_000_000_000_000_000_000_000_000_000_000,
                1 <= n as int,
        {}
    }
    let var = div_floor(sumsq, n as i128);
    let sd_wide = isqrt(var as u128);
    proof {
        assert(sd_wide as int * sd_wide as int <= var as int);
        assert(sd_wide as int <= 3_000_000_000_000_000_000) by (nonlinear_arith)
            requires
                sd_wide as int * sd_wide as int <= var as int,
                var as int <= 4_000_000_000_000_000_000_000_000_000_000_000_000,
                0 <= sd_wide as int,
        {}
        lemma_sqrt_floor_unique(var as int, sd_wide as int);
    }
    let sd = sd_wide as i64;
    out.append("\nKey Statistics:\n");
    out.append("Average Price: $");
    let t1 = fmt_fixed2(avg);
    out.append(t1.as_str());
    out.append("\n");
    out.append("All-Time High: $");
    let t2 = fmt_fixed2(hi);
    out.append(t2.as_str());
    out.append("\n");
    out.append("All-Time Low: $");
    let t3 = fmt_fixed2(lo);
    out.append(t3.as_str());
    out.append("\n");
    out.append("Price Range: $");
    let t4 = fmt_fixed2(hi - lo);
    out.append(t4.as_str());
    out.append(" ($");
    let t5 = fmt_fixed2(lo);
    out.append(t5.as_str());
    out.append(" to $");
    let t6 = fmt_fixed2(hi);
    out.append(t6.as_str());
    out.append(")\n");
    out.append("Price Volatility (Std Dev): $");
    let t7 = fmt_fixed2(sd);
    out.append(t7.as_str());
    out.append(" (");
    let t8 = fmt_fixed2(scaled_percent(sd as i128, avg as i128));
    out.append(t8.as_str());
    out.append("%)\n");
    out.append("Average Volume: ");
    let t9 = fmt_fixed2(avgvol);
    out.append(t9.as_str());
    out.append("\n");
    if n >= 30 {
        let cur = s.candles[n - 1].close;
        let p30 = s.candles[n - 30].close;
        let p7 = s.candles[n - 7].close;
        proof {
            assert(closes_of(cs)[n - 1] == cur as int);
            assert(closes_of(cs)[n - 30] == p30 as int);
            assert(closes_of(cs)[n - 7] == p7 as int);
            assert(cs[n - 1].wf() && cs[n - 30].wf() && cs[n - 7].wf());
        }
        out.append("30-Day Price Change: ");
        let t10 = fmt_fixed2(scaled_percent((cur as i128) - (p30 as i128), p30 as i128));
        out.append(t10.as_str());
        out.append("%\n");
        out.append("7-Day Price Change: ");
        let t11 = fmt_fixed2(scaled_percent((cur as i128) - (p7 as i128), p7 as i128));
        out.append(t11.as_str());
        out.append("%\n");
    }
    proof {
        assert(out@ =~= summary_text(cs));
    }
    out
}

} // verus!

verus! {

/// One raw-candle row: date, then the five fixed-point fields.
pub open spec fn row_text(cd: Candle) -> Seq<char> {
    utc_datetime_text_of((cd.open_time / 1000) as int) + ": O=$"@ + spec_fmt_fixed2(cd.open as int)
        + " H=$"@ + spec_fmt_fixed2(cd.high as int) + " L=$"@ + spec_fmt_fixed2(cd.low as int)
        + " C=$"@ + spec_fmt_fixed2(cd.close as int) + " V="@ + spec_fmt_fixed2(cd.volume as int)
        + "\n"@
}

/// Rows rendered in order.
pub open spec fn rows_text(c: Seq<Candle>) -> Seq<char>
    decreases c.len(),
{
    if c.len() == 0 {
        Seq::empty()
    } else {
        rows_text(c.drop_last()) + row_text(c.last())
    }
}

/// The recent-candles section: the last 24 records.
pub open spec fn recent_text(c: Seq<Candle>) -> Seq<char> {
    "\n=== RECENT BITCOIN OHLCV DATA (LAST 24 RECORDS) ===\nDate,Open,High,Low,Close,Volume\n"@
        + rows_text(
        if c.len() <= 24 {
            c
        } else {
            c.skip(c.len() - 24)
        },
    )
}

/// Render the recent-candles section.
#[verifier::rlimit(100)]
pub fn recent_section(s: &Series) -> (r: String)
    ensures
        r@ == recent_text(s.candles@),
{
    let ghost cs = s.candles@;
    let n = s.candles.len();
    let mut out = String::new();
    out.append("\n=== RECENT BITCOIN OHLCV DATA (LAST 24 RECORDS) ===\nDate,Open,High,Low,Close,Volume\n");
    let start: usize = if n > 24 {
        n - 24
    } else {
        0
    };
    let ghost tail = if cs.len() <= 24 {
        cs
    } else {
        cs.skip(cs.len() - 24)
    };
    let mut i = start;
    proof {
        assert(tail.take(0) =~= Seq::<Candle>::empty());
    }
    while i < n
        invariant
            start <= i <= n,
            n == cs.len(),
            s.candles@ == cs,
            start == if cs.len() > 24 {
                cs.len() - 24
            } else {
                0
            },
            tail == (if cs.len() <= 24 {
                cs
            } else {
                cs.skip(cs.len() - 24)
            }),
            out@ == "\n=== RECENT BITCOIN OHLCV DATA (LAST 24 RECORDS) ===\nDate,Open,High,Low,Close,Volume\n"@
                + rows_text(tail.take(i - start)),
        decreases n - i,
    {
        let c = s.candles[i];
        proof {
            assert(tail.take(i - start + 1).drop_last() =~= tail.take(i - start));
            assert(tail.take(i - start + 1).last() == cs[i as int]);
        }
        let date = utc_datetime_text((c.open_time / 1000) as i64);
        out.append(date.as_str());
        out.append(": O=$");
        let f1 = fmt_fixed2(c.open);
        out.append(f1.as_str());
        out.append(" H=$");
        let f2 = fmt_fixed2(c.high);
        out.append(f2.as_str());
        out.append(" L=$");
        let f3 = fmt_fixed2(c.low);
        out.append(f3.as_str());
        out.append(" C=$");
        let f4 = fmt_fixed2(c.close);
        out.append(f4.as_str());
        out.append(" V=");
        let f5 = fmt_fixed2(c.volume);
        out.append(f5.as_str());
        out.append("\n");
        proof {
            assert(out@ =~= "\n=== RECENT BITCOIN OHLCV DATA (LAST 24 RECORDS) ===\nDate,Open,High,Low,Close,Volume\n"@
                + rows_text(tail.take(i - start + 1)));
        }
        i = i + 1;
    }
    proof {
        assert(tail.take(n - start) =~= tail);
    }
    out
}

/// Fixed-point values joined with commas.
pub open spec fn joined_vals(vs: Seq<i64>) -> Seq<char>
    decreases vs.len(),
{
    if vs.len() == 0 {
        Seq::empty()
    } else if vs.len() == 1 {
        spec_fmt_fixed2(vs[0] as int)
    } else {
        joined_vals(vs.drop_last()) + ", "@ + spec_fmt_fixed2(vs.last() as int)
    }
}

/// Wide fixed-point values joined with commas.
pub open spec fn joined_wide(vs: Seq<i128>) -> Seq<char>
    decreases vs.len(),
{
    if vs.len() == 0 {
        Seq::empty()
    } else if vs.len() == 1 {
        spec_fmt_fixed2(vs[0] as int)
    } else {
        joined_wide(vs.drop_last()) + ", "@ + spec_fmt_fixed2(vs.last() as int)
    }
}

/// Append fixed-point values joined with commas.
fn append_joined(out: &mut String, vs: &Vec<i64>)
    ensures
        final(out)@ == old(out)@ + joined_vals(vs@),
{
    let mut i: usize = 0;
    proof {
        assert(vs@.take(0) =~= Seq::<i64>::empty());
    }
    while i < vs.len()
        invariant
            i <= vs@.len(),
            out@ == old(out)@ + joined_vals(vs@.take(i as int)),
        decreases vs@.len() - i,
    {
        proof {
            assert(vs@.take(i as int + 1).drop_last() =~= vs@.take(i as int));
            assert(vs@.take(i as int + 1).last() == vs@[i as int]);
        }
        if i > 0 {
            out.append(", ");
        }
        let f = fmt_fixed2(vs[i]);
        out.append(f.as_str());
        proof {
            assert(out@ =~= old(out)@ + joined_vals(vs@.take(i as int + 1)));
        }
        i = i + 1;
    }
    proof {
        assert(vs@.take(vs@.len() as int) =~= vs@);
    }
}

/// Append wide fixed-point values joined with commas.
fn append_joined_wide(out: &mut String, vs: &Vec<i128>)
    ensures
        final(out)@ == old(out)@ + joined_wide(vs@),
{
    let mut i: usize = 0;
    proof {
        assert(vs@.take(0) =~= Seq::<i128>::empty());
    }
    while i < vs.len()
        invariant
            i <= vs@.len(),
            out@ == old(out)@ + joined_wide(vs@.take(i as int)),
        decreases vs@.len() - i,
    {
        proof {
            assert(vs@.take(i as int + 1).drop_last() =~= vs@.take(i as int));
            assert(vs@.take(i as int + 1).last() == vs@[i as int]);
        }
        if i > 0 {
            out.append(", ");
        }
        let f = fmt_fixed2_wide(vs[i]);
        out.append(f.as_str());
        proof {
            assert(out@ =~= old(out)@ + joined_wide(vs@.take(i as int + 1)));
        }
        i = i + 1;
    }
    proof {
        assert(vs@.take(vs@.len() as int) =~= vs@);
    }
}

/// One indicator's rendering: its name, its last values, and its label.
pub open spec fn indicator_text(r: IndicatorResult) -> Seq<char> {
    match r {
        IndicatorResult::Sma { sma7, sma20, sma50, sma200, label } => {
            "\nSimple Moving Averages (last 5 periods):"@ + "\nSMA 7: $"@ + joined_vals(sma7@)
                + "\nSMA 20: $"@ + joined_vals(sma20@) + (if sma50@.len() > 0 {
                "\nSMA 50: $"@ + joined_vals(sma50@) + "\nSMA 200: $"@ + joined_vals(sma200@)
            } else {
                Seq::empty()
            }) + "\nTrend: "@ + label.spec_text() + "\n"@
        },
        IndicatorResult::Ema { ema12, ema26, ema50, ema200, label } => {
            "\nExponential Moving Averages (last 5 periods):"@ + "\nEMA 12: $"@ + joined_vals(ema12@)
                + "\nEMA 26: $"@ + joined_vals(ema26@) + (if ema50@.len() > 0 {
                "\nEMA 50: $"@ + joined_vals(ema50@) + "\nEMA 200: $"@ + joined_vals(ema200@)
            } else {
                Seq::empty()
            }) + "\nTrend: "@ + label.spec_text() + "\n"@
        },
        IndicatorResult::Rsi { values, label } => {
            "\nRSI (14 periods, last 5): "@ + joined_vals(values@) + "\nMomentum: "@
                + label.spec_text() + "\n"@
        },
        IndicatorResult::Macd { macd, signal, histogram, label } => {
            "\nMACD (12, 26, 9), last 5 periods:\nMACD Line: "@ + joined_vals(macd@)
                + "\nSignal Line: "@ + joined_vals(signal@) + "\nHistogram: "@ + joined_vals(
                histogram@,
            ) + "\nSignal: "@ + label.spec_text() + "\n"@
        },
        IndicatorResult::Bollinger { middle, upper, lower, label } => {
            "\nBollinger Bands (20, 2), last 5 periods:\nMiddle Band: $"@ + joined_vals(middle@)
                + "\nUpper Band: $"@ + joined_vals(upper@) + "\nLower Band: $"@ + joined_vals(
                lower@,
            ) + "\nIndication: "@ + label.spec_text() + "\n"@
        },
        IndicatorResult::Obv { values, label } => {
            "\nOn-Balance Volume (last 5 periods): "@ + joined_wide(values@)
                + "\nVolume pressure: "@ + label.spec_text() + "\n"@
        },
        IndicatorResult::Atr { values, label } => {
            "\nAverage True Range (14 periods, last 5): $"@ + joined_vals(values@)
                + "\nVolatility: "@ + label.spec_text() + "\n"@
        },
        IndicatorResult::SupportResistance { support, resistance } => {
            "\nSupport level: $"@ + spec_fmt_fixed2(support as int) + "\nResistance level: $"@
                + spec_fmt_fixed2(resistance as int) + "\n"@
        },
    }
}

/// The indicator renderings, in order.
pub open spec fn inds_text(rs: Seq<IndicatorResult>) -> Seq<char>
    decreases rs.len(),
{
    if rs.len() == 0 {
        Seq::empty()
    } else {
        inds_text(rs.drop_last()) + indicator_text(rs.last())
    }
}

/// The technical-indicators section.
pub open spec fn indicators_text(rs: Seq<IndicatorResult>) -> Seq<char> {
    "\n=== TECHNICAL INDICATORS ===\n"@ + inds_text(rs)
}

/// Append the moving-average rendering shared by the SMA and EMA
/// variants: two short-window lines, two long-window lines when the
/// series was long enough, and the trend label.
#[verifier::rlimit(100)]
fn append_ma_block(
    out: &mut String,
    head: &str,
    n1: &str,
    v1: &Vec<i64>,
    n2: &str,
    v2: &Vec<i64>,
    n3: &str,
    v3: &Vec<i64>,
    n4: &str,
    v4: &Vec<i64>,
    label: &Label,
)
    ensures
        final(out)@ == old(out)@ + head@ + n1@ + joined_vals(v1@) + n2@ + joined_vals(v2@) + (
        if v3@.len() > 0 {
            n3@ + joined_vals(v3@) + n4@ + joined_vals(v4@)
        } else {
            Seq::empty()
        }) + "\nTrend: "@ + label.spec_text() + "\n"@,
{
    out.append(head);
    out.append(n1);
    append_joined(out, v1);
    out.append(n2);
    append_joined(out, v2);
    if v3.len() > 0 {
        out.append(n3);
        append_joined(out, v3);
        out.append(n4);
        append_joined(out, v4);
    }
    out.append("\nTrend: ");
    let t = label.text();
    out.append(t.as_str());
    out.append("\n");
    proof {
        assert(final(out)@ =~= old(out)@ + head@ + n1@ + joined_vals(v1@) + n2@ + joined_vals(v2@)
            + (if v3@.len() > 0 {
            n3@ + joined_vals(v3@) + n4@ + joined_vals(v4@)
        } else {
            Seq::empty()
        }) + "\nTrend: "@ + label.spec_text() + "\n"@);
    }
}

/// Append one value line followed by a labelled line.
#[verifier::rlimit(100)]
fn append_line_block(out: &mut String, head: &str, vs: &Vec<i64>, mid: &str, label: &Label)
    ensures
        final(out)@ == old(out)@ + head@ + joined_vals(vs@) + mid@ + label.spec_text() + "\n"@,
{
    out.append(head);
    append_joined(out, vs);
    out.append(mid);
    let t = label.text();
    out.append(t.as_str());
    out.append("\n");
    proof {
        assert(final(out)@ =~= old(out)@ + head@ + joined_vals(vs@) + mid@ + label.spec_text()
            + "\n"@);
    }
}

/// Append an SMA result's rendering.
#[verifier::rlimit(100)]
fn append_sma(
    out: &mut String,
    sma7: &Vec<i64>,
    sma20: &Vec<i64>,
    sma50: &Vec<i64>,
    sma200: &Vec<i64>,
    label: &Label,
)
    ensures
        final(out)@ == old(out)@ + indicator_text(
            IndicatorResult::Sma {
                sma7: *sma7,
                sma20: *sma20,
                sma50: *sma50,
                sma200: *sma200,
                label: *label,
            },
        ),
{
    append_ma_block(
        out,
        "\nSimple Moving Averages (last 5 periods):",
        "\nSMA 7: $",
        sma7,
        "\nSMA 20: $",
        sma20,
        "\nSMA 50: $",
        sma50,
        "\nSMA 200: $",
        sma200,
        label,
    );
}

/// Append an EMA result's rendering.
#[verifier::rlimit(100)]
fn append_ema(
    out: &mut String,
    ema12: &Vec<i64>,
    ema26: &Vec<i64>,
    ema50: &Vec<i64>,
    ema200: &Vec<i64>,
    label: &Label,
)
    ensures
        final(out)@ == old(out)@ + indicator_text(
            IndicatorResult::Ema {
                ema12: *ema12,
                ema26: *ema26,
                ema50: *ema50,
                ema200: *ema200,
                label: *label,
            },
        ),
{
    append_ma_block(
        out,
        "\nExponential Moving Averages (last 5 periods):",
        "\nEMA 12: $",
        ema12,
        "\nEMA 26: $",
        ema26,
        "\nEMA 50: $",
        ema50,
        "\nEMA 200: $",
        ema200,
        label,
    );
}

/// Append a MACD result's rendering.
#[verifier::rlimit(100)]
fn append_macd(
    out: &mut String,
    macd: &Vec<i64>,
    signal: &Vec<i64>,
    histogram: &Vec<i64>,
    label: &Label,
)
    ensures
        final(out)@ == old(out)@ + indicator_text(
            IndicatorResult::Macd {
                macd: *macd,
                signal: *signal,
                histogram: *histogram,
                label: *label,
            },
        ),
{
    out.append("\nMACD (12, 26, 9), last 5 periods:\nMACD Line: ");
    append_joined(out, macd);
    out.append("\nSignal Line: ");
    append_joined(out, signal);
    append_line_block(out, "\nHistogram: ", histogram, "\nSignal: ", label);
    proof {
        assert(final(out)@ =~= old(out)@ + indicator_text(
            IndicatorResult::Macd {
                macd: *macd,
                signal: *signal,
                histogram: *histogram,
                label: *label,
            },
        ));
    }
}

/// Append a Bollinger result's rendering.
#[verifier::rlimit(100)]
fn append_boll(
    out: &mut String,
    middle: &Vec<i64>,
    upper: &Vec<i64>,
    lower: &Vec<i64>,
    label: &Label,
)
    ensures
        final(out)@ == old(out)@ + indicator_text(
            IndicatorResult::Bollinger {
                middle: *middle,
                upper: *upper,
                lower: *lower,
                label: *label,
            },
        ),
{
    out.append("\nBollinger Bands (20, 2), last 5 periods:\nMiddle Band: $");
    append_joined(out, middle);
    out.append("\nUpper Band: $");
    append_joined(out, upper);
    append_line_block(out, "\nLower Band: $", lower, "\nIndication: ", label);
    proof {
        assert(final(out)@ =~= old(out)@ + indicator_text(
            IndicatorResult::Bollinger {
                middle: *middle,
                upper: *upper,
                lower: *lower,
                label: *label,
            },
        ));
    }
}

/// Append an OBV result's rendering.
#[verifier::rlimit(100)]
fn append_obv(out: &mut String, values: &Vec<i128>, label: &Label)
    ensures
        final(out)@ == old(out)@ + indicator_text(
            IndicatorResult::Obv { values: *values, label: *label },
        ),
{
    out.append("\nOn-Balance Volume (last 5 periods): ");
    append_joined_wide(out, values);
    out.append("\nVolume pressure: ");
    let t = label.text();
    out.append(t.as_str());
    out.append("\n");
    proof {
        assert(final(out)@ =~= old(out)@ + indicator_text(
            IndicatorResult::Obv { values: *values, label: *label },
        ));
    }
}

/// Append a support/resistance result's rendering.
#[verifier::rlimit(100)]
fn append_sr(out: &mut String, support: i64, resistance: i64)
    ensures
        final(out)@ == old(out)@ + indicator_text(
            IndicatorResult::SupportResistance { support, resistance },
        ),
{
    out.append("\nSupport level: $");
    let f1 = fmt_fixed2(support);
    out.append(f1.as_str());
    out.append("\nResistance level: $");
    let f2 = fmt_fixed2(resistance);
    out.append(f2.as_str());
    out.append("\n");
    proof {
        assert(final(out)@ =~= old(out)@ + indicator_text(
            IndicatorResult::SupportResistance { support, resistance },
        ));
    }
}

/// Append one indicator's rendering.
fn append_indicator(out: &mut String, r: &IndicatorResult)
    ensures
        final(out)@ == old(out)@ + indicator_text(*r),
{
    match r {
        IndicatorResult::Sma { sma7, sma20, sma50, sma200, label } => {
            append_sma(out, sma7, sma20, sma50, sma200, label);
        },
        IndicatorResult::Ema { ema12, ema26, ema50, ema200, label } => {
            append_ema(out, ema12, ema26, ema50, ema200, label);
        },
        IndicatorResult::Rsi { values, label } => {
            append_line_block(out, "\nRSI (14 periods, last 5): ", values, "\nMomentum: ", label);
        },
        IndicatorResult::Macd { macd, signal, histogram, label } => {
            append_macd(out, macd, signal, histogram, label);
        },
        IndicatorResult::Bollinger { middle, upper, lower, label } => {
            append_boll(out, middle, upper, lower, label);
        },
        IndicatorResult::Obv { values, label } => {
            append_obv(out, values, label);
        },
        IndicatorResult::Atr { values, label } => {
            append_line_block(
                out,
                "\nAverage True Range (14 periods, last 5): $",
                values,
                "\nVolatility: ",
                label,
            );
        },
        IndicatorResult::SupportResistance { support, resistance } => {
            append_sr(out, *support, *resistance);
        },
    }
}

/// Render the technical-indicators section. Every computed result is
/// rendered: nothing is dropped beyond the gating already applied by the
/// engine.
pub fn indicators_section(results: &Vec<IndicatorResult>) -> (r: String)
    ensures
        r@ == indicators_text(results@),
{
    let mut out = String::new();
    out.append("\n=== TECHNICAL INDICATORS ===\n");
    let mut i: usize = 0;
    proof {
        assert(results@.take(0) =~= Seq::<IndicatorResult>::empty());
    }
    while i < results.len()
        invariant
            i <= results@.len(),
            out@ == "\n=== TECHNICAL INDICATORS ===\n"@ + inds_text(results@.take(i as int)),
        decreases results@.len() - i,
    {
        proof {
            assert(results@.take(i as int + 1).drop_last() =~= results@.take(i as int));
            assert(results@.take(i as int + 1).last() == results@[i as int]);
        }
        append_indicator(&mut out, &results[i]);
        i = i + 1;
    }
    proof {
        assert(results@.take(results@.len() as int) =~= results@);
    }
    out
}

/// The epoch seconds a sentiment point's timestamp denotes, zero when the
/// text is not a whole number within range.
pub open spec fn sentiment_ts(pt: FearGreedData) -> int {
    match crate::parse::spec_parse_u64(pt.timestamp@) {
        Option::Some(v) => if v <= i64::MAX {
            v
        } else {
            0
        },
        Option::None => 0,
    }
}

/// One sentiment row: date, classification, value.
pub open spec fn sentiment_row(pt: FearGreedData) -> Seq<char> {
    utc_date_text_of(sentiment_ts(pt)) + ": "@ + pt.value_classification@ + " - "@ + pt.value@
        + "\n"@
}

/// Sentiment rows in order.
pub open spec fn sentiment_rows(ps: Seq<FearGreedData>) -> Seq<char>
    decreases ps.len(),
{
    if ps.len() == 0 {
        Seq::empty()
    } else {
        sentiment_rows(ps.drop_last()) + sentiment_row(ps.last())
    }
}

/// The sentiment section.
pub open spec fn sentiment_text(ps: Seq<FearGreedData>) -> Seq<char> {
    "\n=== FEAR & GREED INDEX ===\nDate: Index classification - Index value\n"@ + sentiment_rows(
        ps,
    )
}

/// Render the sentiment section.
pub fn sentiment_section(points: &Vec<FearGreedData>) -> (r: String)
    ensures
        r@ == sentiment_text(points@),
{
    let mut out = String::new();
    out.append("\n=== FEAR & GREED INDEX ===\nDate: Index classification - Index value\n");
    let mut i: usize = 0;
    proof {
        assert(points@.take(0) =~= Seq::<FearGreedData>::empty());
    }
    while i < points.len()
        invariant
            i <= points@.len(),
            out@ == "\n=== FEAR & GREED INDEX ===\nDate: Index classification - Index value\n"@
                + sentiment_rows(points@.take(i as int)),
        decreases points@.len() - i,
    {
        proof {
            assert(points@.take(i as int + 1).drop_last() =~= points@.take(i as int));
            assert(points@.take(i as int + 1).last() == points@[i as int]);
        }
        let pt = &points[i];
        let secs: i64 = match crate::parse::parse_u64(pt.timestamp.as_str()) {
            Some(v) => if v <= i64::MAX as u64 {
                v as i64
            } else {
                0
            },
            None => 0,
        };
        let date = utc_date_text(secs);
        out.append(date.as_str());
        out.append(": ");
        out.append(pt.value_classification.as_str());
        out.append(" - ");
        out.append(pt.value.as_str());
        out.append("\n");
        proof {
            assert(out@ =~= "\n=== FEAR & GREED INDEX ===\nDate: Index classification - Index value\n"@
                + sentiment_rows(points@.take(i as int + 1)));
        }
        i = i + 1;
    }
    proof {
        assert(points@.take(points@.len() as int) =~= points@);
    }
    out
}

/// The whole report: summary statistics, recent raw candles, indicators,
/// sentiment, in that fixed order.
pub open spec fn report_text(
    c: Seq<Candle>,
    rs: Seq<IndicatorResult>,
    ps: Seq<FearGreedData>,
) -> Seq<char> {
    summary_text(c) + recent_text(c) + indicators_text(rs) + sentiment_text(ps)
}

/// Assemble the full report. It never fails: every section renders, with
/// placeholder text where a section has nothing to show.
pub fn assemble_report(
    s: &Series,
    results: &Vec<IndicatorResult>,
    sentiment: &Vec<FearGreedData>,
) -> (r: String)
    requires
        s.wf(),
    ensures
        r@ == report_text(s.candles@, results@, sentiment@),
{
    let mut out = summary_section(s);
    let t1 = recent_section(s);
    out.append(t1.as_str());
    let t2 = indicators_section(results);
    out.append(t2.as_str());
    let t3 = sentiment_section(sentiment);
    out.append(t3.as_str());
    out
}

} // verus!
