//! The indicator engine: drives every indicator state through one forward
//! pass over a merged series and collects a fixed, gated catalogue of
//! results with interpretive labels.

use vstd::prelude::*;
use crate::candle::{Candle, Series, all_wf, MAX_SERIES_LEN};
use crate::indicators::{
    ints_of, ints_of_wide, tail5, sma_last, sma_series, ema_last, ema_series, rsi_last,
    rsi_series, macd_line_seq, signal_series, histogram_series, bb_upper_last, bb_lower_last,
    obv_last, obv_series, atr_last, atr_series, seq_min, seq_max, SmaState, EmaState, RsiState,
    MacdState, BollState, ObvState, AtrState,
};
use crate::num::{SCALE, VAL_LIMIT, scaled_percent, spec_scaled_percent};

verus! {

/// Interpretive label attached to an indicator result. The thresholds
/// behind each label are fixed constants.
#[derive(Clone, Copy, PartialEq, Eq, Structural, Debug)]
pub enum Label {
    /// Momentum above the overbought threshold.
    Overbought,
    /// Momentum below the oversold threshold.
    Oversold,
    /// Between thresholds.
    Neutral,
    /// Fifty-period average above the two-hundred-period average.
    GoldenCross,
    /// Fifty-period average below the two-hundred-period average.
    DeathCross,
    /// The line crossed above its signal this period.
    BullishCrossover,
    /// The line crossed below its signal this period.
    BearishCrossover,
    /// Upward tendency without a fresh crossover.
    Bullish,
    /// Downward tendency without a fresh crossover.
    Bearish,
    /// Volatility below three percent of price.
    LowVolatility,
    /// Volatility between three and five percent of price.
    MediumVolatility,
    /// Volatility above five percent of price.
    HighVolatility,
}

impl Label {
    /// The label's fixed wording.
    pub open spec fn spec_text(self) -> Seq<char> {
        match self {
            Label::Overbought => "Overbought"@,
            Label::Oversold => "Oversold"@,
            Label::Neutral => "Neutral"@,
            Label::GoldenCross => "Golden Cross"@,
            Label::DeathCross => "Death Cross"@,
            Label::BullishCrossover => "Bullish crossover"@,
            Label::BearishCrossover => "Bearish crossover"@,
            Label::Bullish => "Bullish"@,
            Label::Bearish => "Bearish"@,
            Label::LowVolatility => "Low volatility"@,
            Label::MediumVolatility => "Medium volatility"@,
            Label::HighVolatility => "High volatility"@,
        }
    }

    /// Render the label.
    pub fn text(&self) -> (r: String)
        ensures
            r@ == self.spec_text(),
    {
        match self {
            Label::Overbought => String::from_str("Overbought"),
            Label::Oversold => String::from_str("Oversold"),
            Label::Neutral => String::from_str("Neutral"),
            Label::GoldenCross => String::from_str("Golden Cross"),
            Label::DeathCross => String::from_str("Death Cross"),
            Label::BullishCrossover => String::from_str("Bullish crossover"),
            Label::BearishCrossover => String::from_str("Bearish crossover"),
            Label::Bullish => String::from_str("Bullish"),
            Label::Bearish => String::from_str("Bearish"),
            Label::LowVolatility => String::from_str("Low volatility"),
            Label::MediumVolatility => String::from_str("Medium volatility"),
            Label::HighVolatility => String::from_str("High volatility"),
        }
    }
}

/// One computed indicator: its numeric outputs (the last five periods,
/// oldest first) and an interpretive label where the catalogue defines
/// one.
pub enum IndicatorResult {
    /// Simple moving averages; the 50- and 200-period lists are filled
    /// only for series of at least 200 candles.
    Sma { sma7: Vec<i64>, sma20: Vec<i64>, sma50: Vec<i64>, sma200: Vec<i64>, label: Label },
    /// Exponential moving averages; the 50- and 200-period lists are
    /// filled only for series of at least 200 candles.
    Ema { ema12: Vec<i64>, ema26: Vec<i64>, ema50: Vec<i64>, ema200: Vec<i64>, label: Label },
    /// Relative strength index over 14 periods.
    Rsi { values: Vec<i64>, label: Label },
    /// MACD line, signal line and histogram for (12, 26, 9).
    Macd { macd: Vec<i64>, signal: Vec<i64>, histogram: Vec<i64>, label: Label },
    /// Bollinger bands over 20 periods with two standard deviations.
    Bollinger { middle: Vec<i64>, upper: Vec<i64>, lower: Vec<i64>, label: Label },
    /// On-balance volume running sums.
    Obv { values: Vec<i128>, label: Label },
    /// Average true range over 14 periods.
    Atr { values: Vec<i64>, label: Label },
    /// Least and greatest close of the whole series.
    SupportResistance { support: i64, resistance: i64 },
}

/// Fixed position of each indicator kind in the engine's output order.
pub open spec fn kind_rank(r: IndicatorResult) -> int {
    match r {
        IndicatorResult::Sma { .. } => 0,
        IndicatorResult::Ema { .. } => 1,
        IndicatorResult::Rsi { .. } => 2,
        IndicatorResult::Macd { .. } => 3,
        IndicatorResult::Bollinger { .. } => 4,
        IndicatorResult::Obv { .. } => 5,
        IndicatorResult::Atr { .. } => 6,
        IndicatorResult::SupportResistance { .. } => 7,
    }
}

/// Close prices of a candle sequence, as integers.
pub open spec fn closes_of(c: Seq<Candle>) -> Seq<int> {
    c.map_values(|cd: Candle| cd.close as int)
}

/// Volumes of a candle sequence, as integers.
pub open spec fn vols_of(c: Seq<Candle>) -> Seq<int> {
    c.map_values(|cd: Candle| cd.volume as int)
}

/// Highs of a candle sequence, as integers.
pub open spec fn highs_of(c: Seq<Candle>) -> Seq<int> {
    c.map_values(|cd: Candle| cd.high as int)
}

/// Lows of a candle sequence, as integers.
pub open spec fn lows_of(c: Seq<Candle>) -> Seq<int> {
    c.map_values(|cd: Candle| cd.low as int)
}

/// Label for a relative strength value: above 70 overbought, below 30
/// oversold, otherwise neutral.
pub open spec fn rsi_label(v: int) -> Label {
    if v > 70 * (SCALE as int) {
        Label::Overbought
    } else if v < 30 * (SCALE as int) {
        Label::Oversold
    } else {
        Label::Neutral
    }
}

/// Long-term trend by the 50/200 crossover: golden or death cross.
pub open spec fn sma_long_label(p: Seq<int>) -> Label {
    if sma_last(p, 50) > sma_last(p, 200) {
        Label::GoldenCross
    } else {
        Label::DeathCross
    }
}

/// Short-term trend by the 7/20 crossover.
pub open spec fn sma_short_label(p: Seq<int>) -> Label {
    if sma_last(p, 7) > sma_last(p, 20) {
        Label::Bullish
    } else {
        Label::Bearish
    }
}

/// Long-term exponential trend by the 50/200 comparison.
pub open spec fn ema_long_label(p: Seq<int>) -> Label {
    if ema_last(p, 50) > ema_last(p, 200) {
        Label::Bullish
    } else {
        Label::Bearish
    }
}

/// Short-term exponential trend by the 12/26 comparison.
pub open spec fn ema_short_label(p: Seq<int>) -> Label {
    if ema_last(p, 12) > ema_last(p, 26) {
        Label::Bullish
    } else {
        Label::Bearish
    }
}

/// MACD signal by comparing the sign of (line minus signal) between the
/// last two periods: a sign change is a crossover.
pub open spec fn macd_label(p: Seq<int>) -> Label
    recommends
        p.len() >= 2,
{
    let h = histogram_series(p);
    let cur = h[p.len() - 1] > 0;
    let prev = h[p.len() - 2] > 0;
    if cur && !prev {
        Label::BullishCrossover
    } else if !cur && prev {
        Label::BearishCrossover
    } else if cur {
        Label::Bullish
    } else {
        Label::Bearish
    }
}

/// Band position of the last close: outside the upper or lower band, or
/// within range.
pub open spec fn boll_label(p: Seq<int>) -> Label
    recommends
        p.len() >= 1,
{
    if p.last() > bb_upper_last(p) {
        Label::Overbought
    } else if p.last() < bb_lower_last(p) {
        Label::Oversold
    } else {
        Label::Neutral
    }
}

/// Volume pressure over the last five periods: the relative change of the
/// running sum against its magnitude (at least one unit), thresholds at
/// plus and minus five percent.
pub open spec fn obv_label(c: Seq<int>, v: Seq<int>) -> Label
    recommends
        c.len() >= 2,
        c.len() == v.len(),
{
    let s = obv_series(c, v);
    let last = s[c.len() - 1];
    let ago = s[if c.len() >= 5 {
        c.len() - 5
    } else {
        0
    }];
    let mag = if last >= 0 {
        last
    } else {
        -last
    };
    let whole = if mag < SCALE {
        SCALE as int
    } else {
        mag
    };
    let pct = spec_scaled_percent(last - ago, whole);
    if pct > 5 * (SCALE as int) {
        Label::Bullish
    } else if pct < -5 * (SCALE as int) {
        Label::Bearish
    } else {
        Label::Neutral
    }
}

/// Volatility band of the last average true range as a share of the last
/// close: above five percent high, above three medium, otherwise low.
pub open spec fn atr_label(c: Seq<Candle>) -> Label
    recommends
        c.len() >= 1,
{
    let pct = spec_scaled_percent(atr_last(c, 14), c.last().close as int);
    if pct > 5 * (SCALE as int) {
        Label::HighVolatility
    } else if pct > 3 * (SCALE as int) {
        Label::MediumVolatility
    } else {
        Label::LowVolatility
    }
}

/// What one collected result must hold, given the candle series.
pub open spec fn content_ok(r: IndicatorResult, c: Seq<Candle>) -> bool {
    let p = closes_of(c);
    let v = vols_of(c);
    match r {
        IndicatorResult::Sma { sma7, sma20, sma50, sma200, label } => {
            &&& ints_of(sma7@) == tail5(sma_series(p, 7))
            &&& ints_of(sma20@) == tail5(sma_series(p, 20))
            &&& if p.len() >= 200 {
                &&& ints_of(sma50@) == tail5(sma_series(p, 50))
                &&& ints_of(sma200@) == tail5(sma_series(p, 200))
                &&& label == sma_long_label(p)
            } else {
                &&& sma50@.len() == 0
                &&& sma200@.len() == 0
                &&& label == sma_short_label(p)
            }
        },
        IndicatorResult::Ema { ema12, ema26, ema50, ema200, label } => {
            &&& ints_of(ema12@) == tail5(ema_series(p, 12))
            &&& ints_of(ema26@) == tail5(ema_series(p, 26))
            &&& if p.len() >= 200 {
                &&& ints_of(ema50@) == tail5(ema_series(p, 50))
                &&& ints_of(ema200@) == tail5(ema_series(p, 200))
                &&& label == ema_long_label(p)
            } else {
                &&& ema50@.len() == 0
                &&& ema200@.len() == 0
                &&& label == ema_short_label(p)
            }
        },
        IndicatorResult::Rsi { values, label } => {
            &&& ints_of(values@) == tail5(rsi_series(p, 14))
            &&& label == rsi_label(rsi_last(p, 14))
        },
        IndicatorResult::Macd { macd, signal, histogram, label } => {
            &&& ints_of(macd@) == tail5(macd_line_seq(p))
            &&& ints_of(signal@) == tail5(signal_series(p))
            &&& ints_of(histogram@) == tail5(histogram_series(p))
            &&& label == macd_label(p)
        },
        IndicatorResult::Bollinger { middle, upper, lower, label } => {
            &&& ints_of(middle@) == tail5(sma_series(p, 20))
            &&& ints_of(upper@) == tail5(Seq::new(p.len(), |i: int| bb_upper_last(p.take(i + 1))))
            &&& ints_of(lower@) == tail5(Seq::new(p.len(), |i: int| bb_lower_last(p.take(i + 1))))
            &&& label == boll_label(p)
        },
        IndicatorResult::Obv { values, label } => {
            &&& ints_of_wide(values@) == tail5(obv_series(p, v))
            &&& label == obv_label(p, v)
        },
        IndicatorResult::Atr { values, label } => {
            &&& ints_of(values@) == tail5(atr_series(c, 14))
            &&& label == atr_label(c)
        },
        IndicatorResult::SupportResistance { support, resistance } => {
            &&& support as int == seq_min(p)
            &&& resistance as int == seq_max(p)
        },
    }
}

/// The engine's full contract: results come in the fixed catalogue order,
/// each indicator appears exactly when the series meets its minimum
/// length (the gating rule), and every entry carries the specified
/// values and label.
pub open spec fn results_ok(res: Seq<IndicatorResult>, c: Seq<Candle>) -> bool {
    &&& forall|i: int, j: int|
        0 <= i < j < res.len() ==> kind_rank(#[trigger] res[i]) < kind_rank(#[trigger] res[j])
    &&& forall|i: int| 0 <= i < res.len() ==> content_ok(#[trigger] res[i], c)
    &&& (c.len() >= 20 <==> exists|i: int|
        0 <= i < res.len() && (#[trigger] res[i]) is Sma)
    &&& (c.len() >= 20 <==> exists|i: int|
        0 <= i < res.len() && (#[trigger] res[i]) is Ema)
    &&& (c.len() >= 14 <==> exists|i: int|
        0 <= i < res.len() && (#[trigger] res[i]) is Rsi)
    &&& (c.len() >= 35 <==> exists|i: int|
        0 <= i < res.len() && (#[trigger] res[i]) is Macd)
    &&& (c.len() >= 20 <==> exists|i: int|
        0 <= i < res.len() && (#[trigger] res[i]) is Bollinger)
    &&& (c.len() >= 2 <==> exists|i: int|
        0 <= i < res.len() && (#[trigger] res[i]) is Obv)
    &&& (c.len() >= 14 <==> exists|i: int|
        0 <= i < res.len() && (#[trigger] res[i]) is Atr)
    &&& (c.len() >= 1 <==> exists|i: int|
        0 <= i < res.len() && (#[trigger] res[i]) is SupportResistance)
}

/// The last five entries of a value list, oldest first.
fn last5_i64(v: &Vec<i64>) -> (r: Vec<i64>)
    ensures
        ints_of(r@) == tail5(ints_of(v@)),
{
    let start: usize = if v.len() > 5 {
        v.len() - 5
    } else {
        0
    };
    let mut r: Vec<i64> = Vec::new();
    let mut i = start;
    while i < v.len()
        invariant
            start <= i <= v@.len(),
            start == if v@.len() > 5 {
                v@.len() - 5
            } else {
                0
            },
            r@ == v@.subrange(start as int, i as int),
        decreases v@.len() - i,
    {
        r.push(v[i]);
        proof {
            assert(r@ =~= v@.subrange(start as int, i as int + 1));
        }
        i = i + 1;
    }
    proof {
        assert(ints_of(r@) =~= tail5(ints_of(v@)));
    }
    r
}

/// The last five entries of a wide value list, oldest first.
fn last5_i128(v: &Vec<i128>) -> (r: Vec<i128>)
    ensures
        ints_of_wide(r@) == tail5(ints_of_wide(v@)),
{
    let start: usize = if v.len() > 5 {
        v.len() - 5
    } else {
        0
    };
    let mut r: Vec<i128> = Vec::new();
    let mut i = start;
    while i < v.len()
        invariant
            start <= i <= v@.len(),
            start == if v@.len() > 5 {
                v@.len() - 5
            } else {
                0
            },
            r@ == v@.subrange(start as int, i as int),
        decreases v@.len() - i,
    {
        r.push(v[i]);
        proof {
            assert(r@ =~= v@.subrange(start as int, i as int + 1));
        }
        i = i + 1;
    }
    proof {
        assert(ints_of_wide(r@) =~= tail5(ints_of_wide(v@)));
    }
    r
}

/// Least and greatest close of the series: the naive support and
/// resistance levels. An empty series yields `(0, 0)`.
pub fn support_resistance(closes: &Vec<i64>) -> (r: (i64, i64))
    ensures
        closes@.len() == 0 ==> r == (0i64, 0i64),
        closes@.len() >= 1 ==> r.0 as int == seq_min(ints_of(closes@)) && r.1 as int == seq_max(
            ints_of(closes@),
        ),
{
    if closes.len() == 0 {
        return (0, 0);
    }
    let mut lo = closes[0];
    let mut hi = closes[0];
    let mut i: usize = 1;
    while i < closes.len()
        invariant
            1 <= i <= closes@.len(),
            lo as int == seq_min(ints_of(closes@).take(i as int)),
            hi as int == seq_max(ints_of(closes@).take(i as int)),
        decreases closes@.len() - i,
    {
        let c = closes[i];
        proof {
            let pre = ints_of(closes@).take(i as int + 1);
            assert(pre.drop_last() =~= ints_of(closes@).take(i as int));
            assert(pre.last() == c as int);
        }
        if c < lo {
            lo = c;
        }
        if c > hi {
            hi = c;
        }
        i = i + 1;
    }
    proof {
        assert(ints_of(closes@).take(closes@.len() as int) =~= ints_of(closes@));
    }
    (lo, hi)
}

} // verus!

verus! {

/// Proof scaffolding for the engine: what holds of the result list after
/// the stages up to rank `k` have run.
spec fn upto_ok(res: Seq<IndicatorResult>, c: Seq<Candle>, k: int) -> bool {
    &&& forall|i: int, j: int|
        0 <= i < j < res.len() ==> kind_rank(#[trigger] res[i]) < kind_rank(#[trigger] res[j])
    &&& forall|i: int| 0 <= i < res.len() ==> content_ok(#[trigger] res[i], c)
    &&& forall|i: int| 0 <= i < res.len() ==> kind_rank(#[trigger] res[i]) <= k
    &&& (k >= 0 ==> ((c.len() >= 20) <==> exists|i: int|
        0 <= i < res.len() && (#[trigger] res[i]) is Sma))
    &&& (k >= 1 ==> ((c.len() >= 20) <==> exists|i: int|
        0 <= i < res.len() && (#[trigger] res[i]) is Ema))
    &&& (k >= 2 ==> ((c.len() >= 14) <==> exists|i: int|
        0 <= i < res.len() && (#[trigger] res[i]) is Rsi))
    &&& (k >= 3 ==> ((c.len() >= 35) <==> exists|i: int|
        0 <= i < res.len() && (#[trigger] res[i]) is Macd))
    &&& (k >= 4 ==> ((c.len() >= 20) <==> exists|i: int|
        0 <= i < res.len() && (#[trigger] res[i]) is Bollinger))
    &&& (k >= 5 ==> ((c.len() >= 2) <==> exists|i: int|
        0 <= i < res.len() && (#[trigger] res[i]) is Obv))
    &&& (k >= 6 ==> ((c.len() >= 14) <==> exists|i: int|
        0 <= i < res.len() && (#[trigger] res[i]) is Atr))
    &&& (k >= 7 ==> ((c.len() >= 1) <==> exists|i: int|
        0 <= i < res.len() && (#[trigger] res[i]) is SupportResistance))
}

/// Drive every indicator through one forward pass over the series and
/// collect the gated catalogue of results, in the fixed order: SMA, EMA,
/// RSI, MACD, Bollinger bands, OBV, ATR, support/resistance. An indicator
/// shorter histories cannot support is omitted, never an error.
#[verifier::rlimit(100)]
pub fn compute_indicators(s: &Series) -> (res: Vec<IndicatorResult>)
    requires
        s.wf(),
    ensures
        results_ok(res@, s.candles@),
{
    let ghost cs = s.candles@;
    let ghost cp = closes_of(cs);
    let ghost cv = vols_of(cs);
    let n = s.candles.len();

    // Single-channel views of the series.
    let mut closes: Vec<i64> = Vec::new();
    let mut vols: Vec<i64> = Vec::new();
    let mut i: usize = 0;
    while i < n
        invariant
            i <= n,
            n == cs.len(),
            s.candles@ == cs,
            all_wf(cs),
            closes@.len() == i,
            vols@.len() == i,
            forall|j: int| 0 <= j < i ==> closes@[j] == cs[j].close,
            forall|j: int| 0 <= j < i ==> vols@[j] == cs[j].volume,
        decreases n - i,
    {
        closes.push(s.candles[i].close);
        vols.push(s.candles[i].volume);
        i = i + 1;
    }
    proof {
        assert(ints_of(closes@) =~= cp);
        assert(ints_of(vols@) =~= cv);
    }

    let mut sma7 = SmaState::new(7);
    let mut sma20 = SmaState::new(20);
    let mut sma50 = SmaState::new(50);
    let mut sma200 = SmaState::new(200);
    let mut ema12 = EmaState::new(12);
    let mut ema26 = EmaState::new(26);
    let mut ema50 = EmaState::new(50);
    let mut ema200 = EmaState::new(200);
    let mut rsi = RsiState::new(14);
    let mut macd = MacdState::new();
    let mut boll = BollState::new();
    let mut obv = ObvState::new();
    let mut atr = AtrState::new(14);

    proof {
        assert(cp.take(0) =~= Seq::<int>::empty());
        assert(cv.take(0) =~= Seq::<int>::empty());
        assert(cs.take(0) =~= Seq::<Candle>::empty());
        assert(obv.hist_vol@ =~= Seq::<int>::empty());
    }
    let mut i: usize = 0;
    while i < n
        invariant
            i <= n,
            n == cs.len(),
            n <= MAX_SERIES_LEN,
            s.candles@ == cs,
            all_wf(cs),
            cp == closes_of(cs),
            cv == vols_of(cs),
            sma7.wf() && sma7.window == 7 && sma7.hist@ == cp.take(i as int),
            sma20.wf() && sma20.window == 20 && sma20.hist@ == cp.take(i as int),
            sma50.wf() && sma50.window == 50 && sma50.hist@ == cp.take(i as int),
            sma200.wf() && sma200.window == 200 && sma200.hist@ == cp.take(i as int),
            ema12.wf() && ema12.n == 12 && ema12.hist@ == cp.take(i as int),
            ema26.wf() && ema26.n == 26 && ema26.hist@ == cp.take(i as int),
            ema50.wf() && ema50.n == 50 && ema50.hist@ == cp.take(i as int),
            ema200.wf() && ema200.n == 200 && ema200.hist@ == cp.take(i as int),
            rsi.wf() && rsi.n == 14 && rsi.hist@ == cp.take(i as int),
            macd.wf() && macd.hist@ == cp.take(i as int),
            boll.wf() && boll.hist@ == cp.take(i as int),
            obv.wf() && obv.hist_close@ == cp.take(i as int) && obv.hist_vol@ == cv.take(i as int),
            atr.wf() && atr.n == 14 && atr.hist@ == cs.take(i as int),
        decreases n - i,
    {
        let c = s.candles[i];
        proof {
            assert(cs[i as int].wf());
            assert(cp[i as int] == c.close as int);
            assert(cv[i as int] == c.volume as int);
            assert(cp.take(i as int).push(c.close as int) =~= cp.take(i as int + 1));
            assert(cv.take(i as int).push(c.volume as int) =~= cv.take(i as int + 1));
            assert(cs.take(i as int).push(c) =~= cs.take(i as int + 1));
        }
        sma7.update(c.close);
        sma20.update(c.close);
        sma50.update(c.close);
        sma200.update(c.close);
        ema12.update(c.close);
        ema26.update(c.close);
        ema50.update(c.close);
        ema200.update(c.close);
        rsi.update(c.close);
        macd.update(c.close);
        boll.update(c.close);
        obv.update(c.close, c.volume);
        atr.update(c);
        i = i + 1;
    }
    proof {
        assert(cp.take(n as int) =~= cp);
        assert(cv.take(n as int) =~= cv);
        assert(cs.take(n as int) =~= cs);
        assert(cp.len() == n && cv.len() == n);
        assert(sma7.values@.len() == n && sma20.values@.len() == n && sma50.values@.len() == n
            && sma200.values@.len() == n) by {
            assert(ints_of(sma7.values@).len() == n && ints_of(sma20.values@).len() == n
                && ints_of(sma50.values@).len() == n && ints_of(sma200.values@).len() == n);
        }
        assert(ema12.values@.len() == n && ema26.values@.len() == n && ema50.values@.len() == n
            && ema200.values@.len() == n) by {
            assert(ints_of(ema12.values@).len() == n && ints_of(ema26.values@).len() == n
                && ints_of(ema50.values@).len() == n && ints_of(ema200.values@).len() == n);
        }
        assert(rsi.values@.len() == n) by {
            assert(ints_of(rsi.values@).len() == n);
        }
        assert(macd.macd_values@.len() == n && macd.histogram_values@.len() == n
            && macd.ema_signal.values@.len() == n) by {
            assert(ints_of(macd.macd_values@).len() == n && ints_of(
                macd.histogram_values@,
            ).len() == n && ints_of(macd.ema_signal.values@).len() == macd_line_seq(cp).len());
        }
        assert(boll.sma.values@.len() == n && boll.upper_values@.len() == n
            && boll.lower_values@.len() == n) by {
            assert(ints_of(boll.sma.values@).len() == n && ints_of(boll.upper_values@).len() == n
                && ints_of(boll.lower_values@).len() == n);
        }
        assert(obv.values@.len() == n) by {
            assert(ints_of_wide(obv.values@).len() == n);
        }
        assert(atr.values@.len() == n) by {
            assert(ints_of(atr.values@).len() == n);
        }
        assert forall|k: int| 0 <= k < n implies #[trigger] sma7.values@[k] as int == sma_last(
            cp.take(k + 1),
            7,
        ) by {
            assert(ints_of(sma7.values@)[k] == sma_series(cp, 7)[k]);
        }
        assert forall|k: int| 0 <= k < n implies #[trigger] sma20.values@[k] as int == sma_last(
            cp.take(k + 1),
            20,
        ) by {
            assert(ints_of(sma20.values@)[k] == sma_series(cp, 20)[k]);
        }
        assert forall|k: int| 0 <= k < n implies #[trigger] sma50.values@[k] as int == sma_last(
            cp.take(k + 1),
            50,
        ) by {
            assert(ints_of(sma50.values@)[k] == sma_series(cp, 50)[k]);
        }
        assert forall|k: int| 0 <= k < n implies #[trigger] sma200.values@[k] as int == sma_last(
            cp.take(k + 1),
            200,
        ) by {
            assert(ints_of(sma200.values@)[k] == sma_series(cp, 200)[k]);
        }
        assert forall|k: int| 0 <= k < n implies #[trigger] ema12.values@[k] as int == ema_last(
            cp.take(k + 1),
            12,
        ) by {
            assert(ints_of(ema12.values@)[k] == ema_series(cp, 12)[k]);
        }
        assert forall|k: int| 0 <= k < n implies #[trigger] ema26.values@[k] as int == ema_last(
            cp.take(k + 1),
            26,
        ) by {
            assert(ints_of(ema26.values@)[k] == ema_series(cp, 26)[k]);
        }
        assert forall|k: int| 0 <= k < n implies #[trigger] ema50.values@[k] as int == ema_last(
            cp.take(k + 1),
            50,
        ) by {
            assert(ints_of(ema50.values@)[k] == ema_series(cp, 50)[k]);
        }
        assert forall|k: int| 0 <= k < n implies #[trigger] ema200.values@[k] as int == ema_last(
            cp.take(k + 1),
            200,
        ) by {
            assert(ints_of(ema200.values@)[k] == ema_series(cp, 200)[k]);
        }
        assert forall|k: int| 0 <= k < n implies #[trigger] rsi.values@[k] as int == rsi_last(
            cp.take(k + 1),
            14,
        ) by {
            assert(ints_of(rsi.values@)[k] == rsi_series(cp, 14)[k]);
        }
        assert forall|k: int| 0 <= k < n implies #[trigger] macd.histogram_values@[k] as int
            == histogram_series(cp)[k] by {
            assert(ints_of(macd.histogram_values@)[k] == histogram_series(cp)[k]);
        }
        assert forall|k: int| 0 <= k < n implies #[trigger] boll.upper_values@[k] as int
            == bb_upper_last(cp.take(k + 1)) by {
            assert(ints_of(boll.upper_values@)[k] == bb_upper_last(cp.take(k + 1)));
        }
        assert forall|k: int| 0 <= k < n implies #[trigger] boll.lower_values@[k] as int
            == bb_lower_last(cp.take(k + 1)) by {
            assert(ints_of(boll.lower_values@)[k] == bb_lower_last(cp.take(k + 1)));
        }
        assert forall|k: int| 0 <= k < n implies #[trigger] obv.values@[k] as int == obv_last(
            cp.take(k + 1),
            cv.take(k + 1),
        ) by {
            assert(ints_of_wide(obv.values@)[k] == obv_series(cp, cv)[k]);
        }
        assert forall|k: int| 0 <= k < n implies #[trigger] atr.values@[k] as int == atr_last(
            cs.take(k + 1),
            14,
        ) by {
            assert(ints_of(atr.values@)[k] == atr_series(cs, 14)[k]);
        }
    }

    let mut res: Vec<IndicatorResult> = Vec::new();

    // Simple moving averages.
    let ghost mut w_sma: int = 0;
    if n >= 20 {
        let sma50v: Vec<i64>;
        let sma200v: Vec<i64>;
        let label: Label;
        if n >= 200 {
            let a = sma50.values[n - 1];
            let b = sma200.values[n - 1];
            proof {
                assert(a as int == sma_last(cp, 50));
                assert(b as int == sma_last(cp, 200));
            }
            label = if a > b {
                Label::GoldenCross
            } else {
                Label::DeathCross
            };
            sma50v = last5_i64(&sma50.values);
            sma200v = last5_i64(&sma200.values);
        } else {
            let a = sma7.values[n - 1];
            let b = sma20.values[n - 1];
            proof {
                assert(a as int == sma_last(cp, 7));
                assert(b as int == sma_last(cp, 20));
            }
            label = if a > b {
                Label::Bullish
            } else {
                Label::Bearish
            };
            sma50v = Vec::new();
            sma200v = Vec::new();
        }
        let r = IndicatorResult::Sma {
            sma7: last5_i64(&sma7.values),
            sma20: last5_i64(&sma20.values),
            sma50: sma50v,
            sma200: sma200v,
            label,
        };
        proof {
            assert(content_ok(r, cs));
            w_sma = res@.len() as int;
        }
        res.push(r);
    }
    proof {
        assert((n >= 20) <==> exists|a: int|
            0 <= a < res@.len() && (#[trigger] res@[a]) is Sma) by {
            if n >= 20 {
                assert(res@[w_sma] is Sma);
            }
        }
        assert(upto_ok(res@, cs, 0)) by {
        }
    }

    // Exponential moving averages.
    let ghost mut w_ema: int = 0;
    if n >= 20 {
        let ema50v: Vec<i64>;
        let ema200v: Vec<i64>;
        let label: Label;
        if n >= 200 {
            let a = ema50.values[n - 1];
            let b = ema200.values[n - 1];
            proof {
                assert(a as int == ema_last(cp, 50));
                assert(b as int == ema_last(cp, 200));
            }
            label = if a > b {
                Label::Bullish
            } else {
                Label::Bearish
            };
            ema50v = last5_i64(&ema50.values);
            ema200v = last5_i64(&ema200.values);
        } else {
            let a = ema12.values[n - 1];
            let b = ema26.values[n - 1];
            proof {
                assert(a as int == ema_last(cp, 12));
                assert(b as int == ema_last(cp, 26));
            }
            label = if a > b {
                Label::Bullish
            } else {
                Label::Bearish
            };
            ema50v = Vec::new();
            ema200v = Vec::new();
        }
        let r = IndicatorResult::Ema {
            ema12: last5_i64(&ema12.values),
            ema26: last5_i64(&ema26.values),
            ema50: ema50v,
            ema200: ema200v,
            label,
        };
        proof {
            assert(content_ok(r, cs));
            w_ema = res@.len() as int;
        }
        res.push(r);
    }
    proof {
        assert((n >= 20) <==> exists|a: int|
            0 <= a < res@.len() && (#[trigger] res@[a]) is Ema) by {
            if n >= 20 {
                assert(res@[w_ema] is Ema);
            }
        }
        assert(upto_ok(res@, cs, 1)) by {
            if n >= 20 {
                assert(res@[w_sma] is Sma);
            }
        }
    }

    // Relative strength index.
    let ghost mut w_rsi: int = 0;
    if n >= 14 {
        let v = rsi.values[n - 1];
        proof {
            assert(v as int == rsi_last(cp, 14));
        }
        let label: Label = if v > 70 * SCALE {
            Label::Overbought
        } else if v < 30 * SCALE {
            Label::Oversold
        } else {
            Label::Neutral
        };
        let r = IndicatorResult::Rsi { values: last5_i64(&rsi.values), label };
        proof {
            assert(content_ok(r, cs));
            w_rsi = res@.len() as int;
        }
        res.push(r);
    }
    proof {
        assert((n >= 14) <==> exists|a: int|
            0 <= a < res@.len() && (#[trigger] res@[a]) is Rsi) by {
            if n >= 14 {
                assert(res@[w_rsi] is Rsi);
            }
        }
        assert(upto_ok(res@, cs, 2)) by {
            if n >= 20 {
                assert(res@[w_sma] is Sma);
            }
            if n >= 20 {
                assert(res@[w_ema] is Ema);
            }
        }
    }

    // MACD.
    let ghost mut w_macd: int = 0;
    if n >= 35 {
        let hc = macd.histogram_values[n - 1];
        let hp = macd.histogram_values[n - 2];
        proof {
            assert(hc as int == histogram_series(cp)[n - 1]);
            assert(hp as int == histogram_series(cp)[n - 2]);
        }
        let cur = hc > 0;
        let prev = hp > 0;
        let label: Label = if cur && !prev {
            Label::BullishCrossover
        } else if !cur && prev {
            Label::BearishCrossover
        } else if cur {
            Label::Bullish
        } else {
            Label::Bearish
        };
        let r = IndicatorResult::Macd {
            macd: last5_i64(&macd.macd_values),
            signal: last5_i64(&macd.ema_signal.values),
            histogram: last5_i64(&macd.histogram_values),
            label,
        };
        proof {
            assert(ints_of(macd.ema_signal.values@) == signal_series(cp));
            assert(content_ok(r, cs));
            w_macd = res@.len() as int;
        }
        res.push(r);
    }
    proof {
        assert((n >= 35) <==> exists|a: int|
            0 <= a < res@.len() && (#[trigger] res@[a]) is Macd) by {
            if n >= 35 {
                assert(res@[w_macd] is Macd);
            }
        }
        assert(upto_ok(res@, cs, 3)) by {
            if n >= 20 {
                assert(res@[w_sma] is Sma);
            }
            if n >= 20 {
                assert(res@[w_ema] is Ema);
            }
            if n >= 14 {
                assert(res@[w_rsi] is Rsi);
            }
        }
    }

    // Bollinger bands.
    let ghost mut w_boll: int = 0;
    if n >= 20 {
        let cl = closes[n - 1];
        let up = boll.upper_values[n - 1];
        let lo = boll.lower_values[n - 1];
        proof {
            assert(cl as int == cp.last());
            assert(up as int == bb_upper_last(cp));
            assert(lo as int == bb_lower_last(cp));
        }
        let label: Label = if cl > up {
            Label::Overbought
        } else if cl < lo {
            Label::Oversold
        } else {
            Label::Neutral
        };
        let r = IndicatorResult::Bollinger {
            middle: last5_i64(&boll.sma.values),
            upper: last5_i64(&boll.upper_values),
            lower: last5_i64(&boll.lower_values),
            label,
        };
        proof {
            assert(content_ok(r, cs));
            w_boll = res@.len() as int;
        }
        res.push(r);
    }
    proof {
        assert((n >= 20) <==> exists|a: int|
            0 <= a < res@.len() && (#[trigger] res@[a]) is Bollinger) by {
            if n >= 20 {
                assert(res@[w_boll] is Bollinger);
            }
        }
        assert(upto_ok(res@, cs, 4)) by {
            if n >= 20 {
                assert(res@[w_sma] is Sma);
            }
            if n >= 20 {
                assert(res@[w_ema] is Ema);
            }
            if n >= 14 {
                assert(res@[w_rsi] is Rsi);
            }
            if n >= 35 {
                assert(res@[w_macd] is Macd);
            }
        }
    }

    // On-balance volume.
    let ghost mut w_obv: int = 0;
    if n >= 2 {
        let last = obv.values[n - 1];
        let agoidx: usize = if n >= 5 {
            n - 5
        } else {
            0
        };
        let ago = obv.values[agoidx];
        proof {
            assert(last as int == obv_series(cp, cv)[n - 1]);
            assert(ago as int == obv_series(cp, cv)[agoidx as int]);
            crate::indicators::lemma_obv_bounds(
                cp.take(n as int),
                cv.take(n as int),
            );
            crate::indicators::lemma_obv_bounds(
                cp.take(agoidx as int + 1),
                cv.take(agoidx as int + 1),
            );
            assert((cp.take(n as int).len() as int) * (VAL_LIMIT as int)
                <= 1_000_000_000_000_000_000_000 && (cp.take(agoidx as int + 1).len() as int) * (
            VAL_LIMIT as int) <= 1_000_000_000_000_000_000_000) by (nonlinear_arith)
                requires
                    cp.take(n as int).len() <= 1_000_000,
                    cp.take(agoidx as int + 1).len() <= 1_000_000,
            {}
        }
        let mag: i128 = if last >= 0 {
            last
        } else {
            -last
        };
        let whole: i128 = if mag < SCALE as i128 {
            SCALE as i128
        } else {
            mag
        };
        let pct = scaled_percent(last - ago, whole);
        let label: Label = if pct > 5 * SCALE {
            Label::Bullish
        } else if pct < -5 * SCALE {
            Label::Bearish
        } else {
            Label::Neutral
        };
        let r = IndicatorResult::Obv { values: last5_i128(&obv.values), label };
        proof {
            assert(content_ok(r, cs));
            w_obv = res@.len() as int;
        }
        res.push(r);
    }
    proof {
        assert((n >= 2) <==> exists|a: int|
            0 <= a < res@.len() && (#[trigger] res@[a]) is Obv) by {
            if n >= 2 {
                assert(res@[w_obv] is Obv);
            }
        }
        assert(upto_ok(res@, cs, 5)) by {
            if n >= 20 {
                assert(res@[w_sma] is Sma);
            }
            if n >= 20 {
                assert(res@[w_ema] is Ema);
            }
            if n >= 14 {
                assert(res@[w_rsi] is Rsi);
            }
            if n >= 35 {
                assert(res@[w_macd] is Macd);
            }
            if n >= 20 {
                assert(res@[w_boll] is Bollinger);
            }
        }
    }

    // Average true range.
    let ghost mut w_atr: int = 0;
    if n >= 14 {
        let a = atr.values[n - 1];
        let price = closes[n - 1];
        proof {
            assert(a as int == atr_last(cs, 14));
            assert(price as int == cs.last().close as int);
        }
        let pct = scaled_percent(a as i128, price as i128);
        let label: Label = if pct > 5 * SCALE {
            Label::HighVolatility
        } else if pct > 3 * SCALE {
            Label::MediumVolatility
        } else {
            Label::LowVolatility
        };
        let r = IndicatorResult::Atr { values: last5_i64(&atr.values), label };
        proof {
            assert(content_ok(r, cs));
            w_atr = res@.len() as int;
        }
        res.push(r);
    }
    proof {
        assert((n >= 14) <==> exists|a: int|
            0 <= a < res@.len() && (#[trigger] res@[a]) is Atr) by {
            if n >= 14 {
                assert(res@[w_atr] is Atr);
            }
        }
        assert(upto_ok(res@, cs, 6)) by {
            if n >= 20 {
                assert(res@[w_sma] is Sma);
            }
            if n >= 20 {
                assert(res@[w_ema] is Ema);
            }
            if n >= 14 {
                assert(res@[w_rsi] is Rsi);
            }
            if n >= 35 {
                assert(res@[w_macd] is Macd);
            }
            if n >= 20 {
                assert(res@[w_boll] is Bollinger);
            }
            if n >= 2 {
                assert(res@[w_obv] is Obv);
            }
        }
    }

    // Support and resistance.
    let ghost mut w_sr: int = 0;
    if n >= 1 {
        let sr = support_resistance(&closes);
        let r = IndicatorResult::SupportResistance { support: sr.0, resistance: sr.1 };
        proof {
            assert(content_ok(r, cs));
            w_sr = res@.len() as int;
        }
        res.push(r);
    }
    proof {
        assert((n >= 1) <==> exists|a: int|
            0 <= a < res@.len() && (#[trigger] res@[a]) is SupportResistance) by {
            if n >= 1 {
                assert(res@[w_sr] is SupportResistance);
            }
        }
        assert(upto_ok(res@, cs, 7)) by {
            if n >= 20 {
                assert(res@[w_sma] is Sma);
            }
            if n >= 20 {
                assert(res@[w_ema] is Ema);
            }
            if n >= 14 {
                assert(res@[w_rsi] is Rsi);
            }
            if n >= 35 {
                assert(res@[w_macd] is Macd);
            }
            if n >= 20 {
                assert(res@[w_boll] is Bollinger);
            }
            if n >= 2 {
                assert(res@[w_obv] is Obv);
            }
            if n >= 14 {
                assert(res@[w_atr] is Atr);
            }
        }
        assert(results_ok(res@, cs));
    }

    res
}

} // verus!
