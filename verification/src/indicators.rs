//! Streaming technical indicators over fixed-point price series.
//!
//! Each indicator owns its recursive or windowed state and is driven one
//! candle at a time; the engine collects the per-index values. The spec
//! functions here define each indicator's value over the prefix of the
//! history seen so far, and every state update is proved against them.

use vstd::prelude::*;
use crate::num::{SCALE, VAL_LIMIT, div_floor, lemma_div_le, lemma_div_ge};
use crate::candle::Candle;

verus! {

/// Magnitude bound on every value an indicator state carries; wide enough
/// that derived series (MACD lines, true ranges) of `field_ok` inputs stay
/// within it.
pub const INNER_LIMIT: i64 = 4_000_000_000_000_000;

/// The sequence of mathematical integers behind a vector of fixed-point
/// values.
pub open spec fn ints_of(s: Seq<i64>) -> Seq<int> {
    s.map_values(|v: i64| v as int)
}

/// Sum of a sequence of integers.
pub open spec fn seq_sum(s: Seq<int>) -> int
    decreases s.len(),
{
    if s.len() == 0 {
        0
    } else {
        seq_sum(s.drop_last()) + s.last()
    }
}

/// A sequence of values in `[-b, b]` sums to something in
/// `[-len * b, len * b]`.
pub proof fn lemma_seq_sum_bounded(s: Seq<int>, b: int)
    requires
        0 <= b,
        forall|i: int| 0 <= i < s.len() ==> -b <= #[trigger] s[i] <= b,
    ensures
        -(s.len() as int) * b <= seq_sum(s) <= (s.len() as int) * b,
    decreases s.len(),
{
    if s.len() == 0 {
    } else {
        lemma_seq_sum_bounded(s.drop_last(), b);
        let n = s.len() as int;
        assert((n - 1) * b + b == n * b) by (nonlinear_arith);
        assert(-(n - 1) * b - b == -n * b) by (nonlinear_arith);
    }
}

/// Removing the front element removes exactly its contribution to the sum.
pub proof fn lemma_seq_sum_drop_first(s: Seq<int>)
    requires
        s.len() >= 1,
    ensures
        seq_sum(s.drop_first()) == seq_sum(s) - s[0],
    decreases s.len(),
{
    if s.len() == 1 {
        assert(s.drop_first() =~= Seq::<int>::empty());
        assert(s.drop_last() =~= Seq::<int>::empty());
        assert(s.last() == s[0]);
    } else {
        assert(s.drop_first().drop_last() =~= s.drop_last().drop_first());
        lemma_seq_sum_drop_first(s.drop_last());
        assert(s.drop_last()[0] == s[0]);
        assert(s.drop_first().last() == s.last());
        assert(seq_sum(s.drop_first()) == seq_sum(s.drop_first().drop_last()) + s.drop_first().last());
    }
}

/// The last `min(w, len)` elements: the window a `w`-period indicator sees
/// (all of a history shorter than the window).
pub open spec fn win(p: Seq<int>, w: nat) -> Seq<int> {
    if p.len() <= w {
        p
    } else {
        p.skip(p.len() - w)
    }
}

/// Simple moving average at the last index of `p`: the floor of the mean
/// over the trailing `w`-window.
pub open spec fn sma_last(p: Seq<int>, w: nat) -> int
    recommends
        p.len() >= 1,
        w >= 1,
{
    seq_sum(win(p, w)) / (win(p, w).len() as int)
}

/// Per-index simple moving average over the growing prefixes of `p`.
pub open spec fn sma_series(p: Seq<int>, w: nat) -> Seq<int> {
    Seq::new(p.len(), |i: int| sma_last(p.take(i + 1), w))
}

/// The last five values (or all of a shorter series): the trend window the
/// report shows.
pub open spec fn tail5(s: Seq<int>) -> Seq<int> {
    if s.len() <= 5 {
        s
    } else {
        s.skip(s.len() - 5)
    }
}

/// Streaming simple moving average: keeps the trailing window and its sum.
pub struct SmaState {
    /// Window length in periods.
    pub window: usize,
    /// The last `min(window, count)` inputs.
    pub buf: Vec<i64>,
    /// Sum of `buf`.
    pub sum: i64,
    /// Output value after each input so far.
    pub values: Vec<i64>,
    /// Every input seen so far.
    pub hist: Ghost<Seq<int>>,
}

impl SmaState {
    /// State and history agree: the buffer is the trailing window, the sum
    /// is its sum, and `values` carries the whole per-index series.
    pub open spec fn wf(self) -> bool {
        &&& 1 <= self.window <= 1000
        &&& forall|i: int|
            0 <= i < self.hist@.len() ==> -INNER_LIMIT <= #[trigger] self.hist@[i] <= INNER_LIMIT
        &&& ints_of(self.buf@) == win(self.hist@, self.window as nat)
        &&& self.sum == seq_sum(win(self.hist@, self.window as nat))
        &&& ints_of(self.values@) == sma_series(self.hist@, self.window as nat)
    }

    /// Fresh state with an empty history.
    pub fn new(window: usize) -> (s: SmaState)
        requires
            1 <= window <= 1000,
        ensures
            s.wf(),
            s.window == window,
            s.hist@ == Seq::<int>::empty(),
            s.values@.len() == 0,
    {
        let s = SmaState {
            window,
            buf: Vec::new(),
            sum: 0,
            values: Vec::new(),
            hist: Ghost(Seq::empty()),
        };
        proof {
            assert(ints_of(s.buf@) =~= win(s.hist@, window as nat));
            assert(ints_of(s.values@) =~= sma_series(s.hist@, window as nat));
        }
        s
    }

    /// Feed one input; returns the moving average over the new trailing
    /// window.
    pub fn update(&mut self, p: i64) -> (v: i64)
        requires
            old(self).wf(),
            -INNER_LIMIT <= p <= INNER_LIMIT,
        ensures
            final(self).wf(),
            final(self).window == old(self).window,
            final(self).hist@ == old(self).hist@.push(p as int),
            v as int == sma_last(final(self).hist@, old(self).window as nat),
            final(self).values@ == old(self).values@.push(v),
            -INNER_LIMIT <= v <= INNER_LIMIT,
    {
        let ghost oldh = self.hist@;
        let ghost w = self.window as nat;
        let ghost newh = oldh.push(p as int);
        proof {
            self.hist@ = newh;
            lemma_seq_sum_bounded(win(oldh, w), INNER_LIMIT as int);
            assert(win(oldh, w).len() <= 1000);
            assert(win(oldh, w).len() as int * INNER_LIMIT <= 1000 * INNER_LIMIT)
                by (nonlinear_arith)
                requires win(oldh, w).len() as int <= 1000
            {}
            assert(-(win(oldh, w).len() as int) * INNER_LIMIT >= -1000 * INNER_LIMIT)
                by (nonlinear_arith)
                requires win(oldh, w).len() as int <= 1000
            {}
        }
        self.buf.push(p);
        self.sum = self.sum + p;
        proof {
            assert(ints_of(self.buf@) =~= ints_of(old(self).buf@).push(p as int));
            assert(ints_of(self.buf@).drop_last() =~= ints_of(old(self).buf@));
            assert(self.sum == seq_sum(ints_of(self.buf@)));
        }
        if self.buf.len() > self.window {
            let dropped = self.buf.remove(0);
            proof {
                let full = ints_of(old(self).buf@).push(p as int);
                assert(ints_of(self.buf@) =~= full.drop_first());
                lemma_seq_sum_drop_first(full);
                assert(dropped as int == full[0]);
            }
            self.sum = self.sum - dropped;
        }
        proof {
            // The buffer now carries exactly the trailing window of the
            // extended history.
            assert(ints_of(self.buf@) =~= win(newh, w)) by {
                let full = ints_of(old(self).buf@).push(p as int);
                if oldh.len() < w {
                    assert(win(oldh, w) =~= oldh);
                    assert(full =~= newh);
                    assert(win(newh, w) =~= newh);
                } else {
                    assert(win(oldh, w) =~= oldh.skip(oldh.len() - w));
                    assert(full =~= oldh.skip(oldh.len() - w).push(p as int));
                    if oldh.len() == w {
                        assert(win(newh, w) =~= newh.skip(1));
                    } else {
                        assert(win(newh, w) =~= newh.skip(newh.len() - w));
                    }
                }
            }
            assert(self.sum == seq_sum(win(newh, w)));
        }
        let k = self.buf.len();
        proof {
            assert(k >= 1);
            lemma_seq_sum_bounded(win(newh, w), INNER_LIMIT as int);
            assert(win(newh, w).len() == k);
            assert(k as int * (INNER_LIMIT as int) == (win(newh, w).len() as int) * (
            INNER_LIMIT as int)) by (nonlinear_arith)
                requires k as int == win(newh, w).len() as int
            {}
            assert(k as int * (-(INNER_LIMIT as int)) == -((win(newh, w).len() as int) * (
            INNER_LIMIT as int))) by (nonlinear_arith)
                requires k as int == win(newh, w).len() as int
            {}
            lemma_div_le(self.sum as int, k as int, INNER_LIMIT as int);
            lemma_div_ge(self.sum as int, k as int, -(INNER_LIMIT as int));
        }
        let vq = div_floor(self.sum as i128, k as i128);
        let v = vq as i64;
        proof {
            assert(win(newh, w).len() == k);
            assert(v as int == sma_last(newh, w));
        }
        self.values.push(v);
        proof {
            assert(ints_of(self.values@) =~= sma_series(newh, w)) by {
                assert(ints_of(self.values@) =~= ints_of(old(self).values@).push(v as int));
                assert forall|i: int| 0 <= i < oldh.len() implies #[trigger] newh.take(i + 1)
                    =~= oldh.take(i + 1) by {
                }
                assert(newh.take(newh.len() as int) =~= newh);
            }
        }
        v
    }
}

} // verus!

verus! {

/// Exponential moving average at the last index of `p` with smoothing
/// factor 2/(n+1): the first input seeds the average, every later input
/// folds in by `(2 p + (n-1) e) / (n+1)` with floor division.
pub open spec fn ema_last(p: Seq<int>, n: nat) -> int
    recommends
        p.len() >= 1,
        n >= 1,
    decreases p.len(),
{
    if p.len() <= 1 {
        p[0]
    } else {
        (2 * p.last() + (n - 1) * ema_last(p.drop_last(), n)) / (n + 1) as int
    }
}

/// Per-index exponential moving average over the growing prefixes of `p`.
pub open spec fn ema_series(p: Seq<int>, n: nat) -> Seq<int> {
    Seq::new(p.len(), |i: int| ema_last(p.take(i + 1), n))
}

/// The exponential average stays within any symmetric bound on its inputs.
pub proof fn lemma_ema_bounded(p: Seq<int>, n: nat, b: int)
    requires
        1 <= n,
        p.len() >= 1,
        0 <= b,
        forall|i: int| 0 <= i < p.len() ==> -b <= #[trigger] p[i] <= b,
    ensures
        -b <= ema_last(p, n) <= b,
    decreases p.len(),
{
    if p.len() <= 1 {
    } else {
        lemma_ema_bounded(p.drop_last(), n, b);
        let e = ema_last(p.drop_last(), n);
        let x = p.last();
        let num = 2 * x + (n - 1) * e;
        assert(num <= (n + 1) as int * b && (n + 1) as int * (-b) <= num) by (nonlinear_arith)
            requires
                num == 2 * x + (n as int - 1) * e,
                -b <= x <= b,
                -b <= e <= b,
                n as int >= 1,
                0 <= b,
        {}
        lemma_div_le(num, (n + 1) as int, b);
        assert((n + 1) as int * (-b) == (n + 1) as int * -b);
        lemma_div_ge(num, (n + 1) as int, -b);
    }
}

/// Streaming exponential moving average.
pub struct EmaState {
    /// Period of the smoothing factor 2/(n+1).
    pub n: usize,
    /// Current average (meaningful once an input was seen).
    pub current: i64,
    /// Number of inputs seen so far.
    pub count: usize,
    /// Output value after each input so far.
    pub values: Vec<i64>,
    /// Every input seen so far.
    pub hist: Ghost<Seq<int>>,
}

impl EmaState {
    /// State and history agree.
    pub open spec fn wf(self) -> bool {
        &&& 1 <= self.n <= 1000
        &&& forall|i: int|
            0 <= i < self.hist@.len() ==> -INNER_LIMIT <= #[trigger] self.hist@[i] <= INNER_LIMIT
        &&& self.count == self.hist@.len()
        &&& self.hist@.len() >= 1 ==> self.current as int == ema_last(self.hist@, self.n as nat)
        &&& ints_of(self.values@) == ema_series(self.hist@, self.n as nat)
    }

    /// Fresh state with an empty history.
    pub fn new(n: usize) -> (s: EmaState)
        requires
            1 <= n <= 1000,
        ensures
            s.wf(),
            s.n == n,
            s.hist@ == Seq::<int>::empty(),
            s.values@.len() == 0,
    {
        let s = EmaState { n, current: 0, count: 0, values: Vec::new(), hist: Ghost(Seq::empty()) };
        proof {
            assert(ints_of(s.values@) =~= ema_series(s.hist@, n as nat));
        }
        s
    }

    /// Feed one input; returns the new exponential average.
    pub fn update(&mut self, p: i64) -> (v: i64)
        requires
            old(self).wf(),
            -INNER_LIMIT <= p <= INNER_LIMIT,
            old(self).count < usize::MAX,
        ensures
            final(self).wf(),
            final(self).n == old(self).n,
            final(self).count == old(self).count + 1,
            final(self).hist@ == old(self).hist@.push(p as int),
            v as int == ema_last(final(self).hist@, old(self).n as nat),
            final(self).values@ == old(self).values@.push(v),
            -INNER_LIMIT <= v <= INNER_LIMIT,
    {
        let ghost oldh = self.hist@;
        let ghost n = self.n as nat;
        let ghost newh = oldh.push(p as int);
        proof {
            self.hist@ = newh;
        }
        if self.count == 0 {
            self.current = p;
            proof {
                assert(oldh.len() == 0);
                assert(newh[0] == p as int);
            }
        } else {
            proof {
                assert(newh.drop_last() =~= oldh);
                assert(-INNER_LIMIT <= self.current <= INNER_LIMIT) by {
                    lemma_ema_bounded(oldh, n, INNER_LIMIT as int);
                }
                assert(-4_000_000_000_000_000_000 <= ((self.n - 1) as int) * (
                self.current as int) <= 4_000_000_000_000_000_000) by (nonlinear_arith)
                    requires
                        1 <= self.n <= 1000,
                        -INNER_LIMIT <= self.current <= INNER_LIMIT,
                {}
            }
            let num: i128 = 2 * (p as i128) + ((self.n - 1) as i128) * (self.current as i128);
            proof {
                assert(num == 2 * (p as int) + (n - 1) * (self.current as int));
                let b = INNER_LIMIT as int;
                assert(num <= (self.n + 1) as int * b && (self.n + 1) as int * (-b) <= num)
                    by (nonlinear_arith)
                    requires
                        num == 2 * (p as int) + ((self.n - 1) as int) * (self.current as int),
                        1 <= self.n <= 1000,
                        -b <= self.current as int <= b,
                        -b <= p as int <= b,
                        b == INNER_LIMIT as int,
                {}
                lemma_div_le(num as int, (self.n + 1) as int, b);
                lemma_div_ge(num as int, (self.n + 1) as int, -b);
                assert((self.n + 1) as int * (-b) == (self.n + 1) as int * -b);
            }
            let q = div_floor(num, (self.n as i128) + 1);
            self.current = q as i64;
            proof {
                assert(self.current as int == ema_last(newh, n));
            }
        }
        self.count = self.count + 1;
        self.values.push(self.current);
        proof {
            assert(ints_of(self.values@) =~= ema_series(newh, n)) by {
                assert(ints_of(self.values@) =~= ints_of(old(self).values@).push(
                    self.current as int,
                ));
                assert forall|i: int| 0 <= i < oldh.len() implies #[trigger] newh.take(i + 1)
                    =~= oldh.take(i + 1) by {
                }
                assert(newh.take(newh.len() as int) =~= newh);
            }
        }
        self.current
    }
}

} // verus!

verus! {

/// Upward move from index `i - 1` to `i`, or zero.
pub open spec fn gain_at(p: Seq<int>, i: int) -> int
    recommends
        1 <= i < p.len(),
{
    if p[i] > p[i - 1] {
        p[i] - p[i - 1]
    } else {
        0
    }
}

/// Downward move from index `i - 1` to `i`, or zero.
pub open spec fn loss_at(p: Seq<int>, i: int) -> int
    recommends
        1 <= i < p.len(),
{
    if p[i] < p[i - 1] {
        p[i - 1] - p[i]
    } else {
        0
    }
}

/// Wilder-smoothed average gain after the last index: zero until a second
/// input arrives, then `(avg * (n-1) + gain) / n` with floor division.
pub open spec fn avg_gain_last(p: Seq<int>, n: nat) -> int
    recommends
        n >= 1,
    decreases p.len(),
{
    if p.len() <= 1 {
        0
    } else {
        (avg_gain_last(p.drop_last(), n) * (n - 1) + gain_at(p, p.len() - 1)) / n as int
    }
}

/// Wilder-smoothed average loss after the last index.
pub open spec fn avg_loss_last(p: Seq<int>, n: nat) -> int
    recommends
        n >= 1,
    decreases p.len(),
{
    if p.len() <= 1 {
        0
    } else {
        (avg_loss_last(p.drop_last(), n) * (n - 1) + loss_at(p, p.len() - 1)) / n as int
    }
}

/// Relative strength index at the last index of `p`, as a fixed-point value
/// in `[0, 100 * SCALE]`: `100 * g / (g + l)` with the denominator never
/// below one unit, so a flat history yields zero rather than a division by
/// zero.
pub open spec fn rsi_last(p: Seq<int>, n: nat) -> int
    recommends
        n >= 1,
{
    let g = avg_gain_last(p, n);
    let l = avg_loss_last(p, n);
    let den = if g + l < 1 {
        1int
    } else {
        g + l
    };
    (100 * (SCALE as int) * g) / den
}

/// Per-index relative strength index over the growing prefixes of `p`.
pub open spec fn rsi_series(p: Seq<int>, n: nat) -> Seq<int> {
    Seq::new(p.len(), |i: int| rsi_last(p.take(i + 1), n))
}

/// Both Wilder averages are non-negative, and bounded by `2 b` when the
/// inputs are bounded by `b`.
pub proof fn lemma_wilder_bounds(p: Seq<int>, n: nat, b: int)
    requires
        1 <= n,
        0 <= b,
        forall|i: int| 0 <= i < p.len() ==> -b <= #[trigger] p[i] <= b,
    ensures
        0 <= avg_gain_last(p, n) <= 2 * b,
        0 <= avg_loss_last(p, n) <= 2 * b,
    decreases p.len(),
{
    if p.len() <= 1 {
    } else {
        lemma_wilder_bounds(p.drop_last(), n, b);
        let i = p.len() - 1;
        let g = avg_gain_last(p.drop_last(), n);
        let l = avg_loss_last(p.drop_last(), n);
        assert(0 <= gain_at(p, i) <= 2 * b && 0 <= loss_at(p, i) <= 2 * b);
        assert(g * (n - 1) + gain_at(p, i) <= n as int * (2 * b) && 0 <= g * (n - 1) + gain_at(
            p,
            i,
        )) by (nonlinear_arith)
            requires
                0 <= g <= 2 * b,
                0 <= gain_at(p, i) <= 2 * b,
                n as int >= 1,
                0 <= b,
        {}
        assert(l * (n - 1) + loss_at(p, i) <= n as int * (2 * b) && 0 <= l * (n - 1) + loss_at(
            p,
            i,
        )) by (nonlinear_arith)
            requires
                0 <= l <= 2 * b,
                0 <= loss_at(p, i) <= 2 * b,
                n as int >= 1,
                0 <= b,
        {}
        lemma_div_le(g * (n - 1) + gain_at(p, i), n as int, 2 * b);
        lemma_div_le(l * (n - 1) + loss_at(p, i), n as int, 2 * b);
        vstd::arithmetic::div_mod::lemma_div_pos_is_pos(g * (n - 1) + gain_at(p, i), n as int);
        vstd::arithmetic::div_mod::lemma_div_pos_is_pos(l * (n - 1) + loss_at(p, i), n as int);
    }
}

/// The relative strength index lies in `[0, 100]` (fixed point: up to
/// `100 * SCALE`) for every history whatever.
pub proof fn lemma_rsi_range(p: Seq<int>, n: nat, b: int)
    requires
        1 <= n,
        0 <= b,
        forall|i: int| 0 <= i < p.len() ==> -b <= #[trigger] p[i] <= b,
    ensures
        0 <= rsi_last(p, n) <= 100 * SCALE,
{
    lemma_wilder_bounds(p, n, b);
    let g = avg_gain_last(p, n);
    let l = avg_loss_last(p, n);
    let den = if g + l < 1 {
        1int
    } else {
        g + l
    };
    assert(g <= den);
    assert(100 * (SCALE as int) * g <= den * (100 * (SCALE as int))) by (nonlinear_arith)
        requires
            0 <= g <= den,
    {}
    lemma_div_le(100 * (SCALE as int) * g, den, 100 * (SCALE as int));
    vstd::arithmetic::div_mod::lemma_div_pos_is_pos(100 * (SCALE as int) * g, den);
}

/// Streaming relative strength index.
pub struct RsiState {
    /// Wilder smoothing period.
    pub n: usize,
    /// Current average gain.
    pub avg_gain: i64,
    /// Current average loss.
    pub avg_loss: i64,
    /// Most recent input.
    pub prev: i64,
    /// Number of inputs seen so far.
    pub count: usize,
    /// Output value after each input so far.
    pub values: Vec<i64>,
    /// Every input seen so far.
    pub hist: Ghost<Seq<int>>,
}

impl RsiState {
    /// State and history agree.
    pub open spec fn wf(self) -> bool {
        &&& 1 <= self.n <= 1000
        &&& forall|i: int|
            0 <= i < self.hist@.len() ==> -INNER_LIMIT <= #[trigger] self.hist@[i] <= INNER_LIMIT
        &&& self.count == self.hist@.len()
        &&& self.hist@.len() >= 1 ==> self.prev as int == self.hist@.last()
        &&& self.avg_gain as int == avg_gain_last(self.hist@, self.n as nat)
        &&& self.avg_loss as int == avg_loss_last(self.hist@, self.n as nat)
        &&& ints_of(self.values@) == rsi_series(self.hist@, self.n as nat)
    }

    /// Fresh state with an empty history.
    pub fn new(n: usize) -> (s: RsiState)
        requires
            1 <= n <= 1000,
        ensures
            s.wf(),
            s.n == n,
            s.hist@ == Seq::<int>::empty(),
            s.values@.len() == 0,
    {
        let s = RsiState {
            n,
            avg_gain: 0,
            avg_loss: 0,
            prev: 0,
            count: 0,
            values: Vec::new(),
            hist: Ghost(Seq::empty()),
        };
        proof {
            assert(ints_of(s.values@) =~= rsi_series(s.hist@, n as nat));
        }
        s
    }

    /// Feed one input; returns the new index value in `[0, 100 * SCALE]`.
    pub fn update(&mut self, p: i64) -> (v: i64)
        requires
            old(self).wf(),
            -INNER_LIMIT <= p <= INNER_LIMIT,
            old(self).count < usize::MAX,
        ensures
            final(self).wf(),
            final(self).n == old(self).n,
            final(self).count == old(self).count + 1,
            final(self).hist@ == old(self).hist@.push(p as int),
            v as int == rsi_last(final(self).hist@, old(self).n as nat),
            final(self).values@ == old(self).values@.push(v),
            0 <= v <= 100 * SCALE,
    {
        let ghost oldh = self.hist@;
        let ghost n = self.n as nat;
        let ghost newh = oldh.push(p as int);
        proof {
            self.hist@ = newh;
            assert(newh.drop_last() =~= oldh);
            lemma_wilder_bounds(oldh, n, INNER_LIMIT as int);
            lemma_wilder_bounds(newh, n, INNER_LIMIT as int);
        }
        if self.count > 0 {
            let gain: i64 = if p > self.prev {
                p - self.prev
            } else {
                0
            };
            let loss: i64 = if p < self.prev {
                self.prev - p
            } else {
                0
            };
            proof {
                assert(gain as int == gain_at(newh, newh.len() - 1));
                assert(loss as int == loss_at(newh, newh.len() - 1));
                assert(-8_000_000_000_000_000_000 <= (self.avg_gain as int) * ((self.n as int)
                    - 1) <= 8_000_000_000_000_000_000) by (nonlinear_arith)
                    requires
                        0 <= self.avg_gain as int <= 2 * (INNER_LIMIT as int),
                        1 <= self.n as int <= 1000,
                {}
                assert(-8_000_000_000_000_000_000 <= (self.avg_loss as int) * ((self.n as int)
                    - 1) <= 8_000_000_000_000_000_000) by (nonlinear_arith)
                    requires
                        0 <= self.avg_loss as int <= 2 * (INNER_LIMIT as int),
                        1 <= self.n as int <= 1000,
                {}
            }
            let gnum: i128 = (self.avg_gain as i128) * ((self.n as i128) - 1) + (gain as i128);
            let lnum: i128 = (self.avg_loss as i128) * ((self.n as i128) - 1) + (loss as i128);
            proof {
                let b2 = 2 * (INNER_LIMIT as int);
                assert(0 <= gnum <= self.n as int * b2 && 0 <= lnum <= self.n as int * b2)
                    by (nonlinear_arith)
                    requires
                        gnum == (self.avg_gain as int) * ((self.n as int) - 1) + (gain as int),
                        lnum == (self.avg_loss as int) * ((self.n as int) - 1) + (loss as int),
                        0 <= self.avg_gain as int <= b2,
                        0 <= self.avg_loss as int <= b2,
                        0 <= gain as int <= b2,
                        0 <= loss as int <= b2,
                        1 <= self.n as int <= 1000,
                        b2 == 2 * (INNER_LIMIT as int),
                {}
                lemma_div_le(gnum as int, self.n as int, 2 * (INNER_LIMIT as int));
                lemma_div_le(lnum as int, self.n as int, 2 * (INNER_LIMIT as int));
                vstd::arithmetic::div_mod::lemma_div_pos_is_pos(gnum as int, self.n as int);
                vstd::arithmetic::div_mod::lemma_div_pos_is_pos(lnum as int, self.n as int);
            }
            let gq = div_floor(gnum, self.n as i128);
            let lq = div_floor(lnum, self.n as i128);
            self.avg_gain = gq as i64;
            self.avg_loss = lq as i64;
        }
        self.prev = p;
        self.count = self.count + 1;
        proof {
            assert(self.avg_gain as int == avg_gain_last(newh, n));
            assert(self.avg_loss as int == avg_loss_last(newh, n));
        }
        let sum: i64 = self.avg_gain + self.avg_loss;
        let den: i64 = if sum < 1 {
            1
        } else {
            sum
        };
        proof {
            let g = self.avg_gain as int;
            let d = den as int;
            assert(100 * (SCALE as int) * g <= d * (100 * (SCALE as int))) by (nonlinear_arith)
                requires
                    0 <= g <= d,
            {}
            lemma_div_le(100 * (SCALE as int) * g, d, 100 * (SCALE as int));
            vstd::arithmetic::div_mod::lemma_div_pos_is_pos(100 * (SCALE as int) * g, d);
        }
        let num: i128 = 10_000_000_000 * (self.avg_gain as i128);
        proof {
            assert(num == 100 * (SCALE as int) * (self.avg_gain as int));
        }
        let vq = div_floor(num, den as i128);
        let v = vq as i64;
        self.values.push(v);
        proof {
            assert(v as int == rsi_last(newh, n));
            assert(ints_of(self.values@) =~= rsi_series(newh, n)) by {
                assert(ints_of(self.values@) =~= ints_of(old(self).values@).push(v as int));
                assert forall|i: int| 0 <= i < oldh.len() implies #[trigger] newh.take(i + 1)
                    =~= oldh.take(i + 1) by {
                }
                assert(newh.take(newh.len() as int) =~= newh);
            }
        }
        v
    }
}

} // verus!

verus! {

/// MACD line at index `i`: 12-period minus 26-period exponential average
/// over the prefix ending at `i`.
pub open spec fn macd_line_at(p: Seq<int>, i: int) -> int
    recommends
        0 <= i < p.len(),
{
    ema_last(p.take(i + 1), 12) - ema_last(p.take(i + 1), 26)
}

/// The whole MACD line series over `p`.
pub open spec fn macd_line_seq(p: Seq<int>) -> Seq<int> {
    Seq::new(p.len(), |i: int| macd_line_at(p, i))
}

/// Signal line at the last index: 9-period exponential average of the MACD
/// line series.
pub open spec fn signal_last(p: Seq<int>) -> int
    recommends
        p.len() >= 1,
{
    ema_last(macd_line_seq(p), 9)
}

/// The whole signal line series over `p`.
pub open spec fn signal_series(p: Seq<int>) -> Seq<int> {
    ema_series(macd_line_seq(p), 9)
}

/// Histogram series: MACD line minus signal line, index by index.
pub open spec fn histogram_series(p: Seq<int>) -> Seq<int> {
    Seq::new(p.len(), |i: int| macd_line_seq(p)[i] - signal_series(p)[i])
}

/// Taking a prefix of the inputs takes the same prefix of the MACD line.
pub proof fn lemma_macd_line_prefix(p: Seq<int>, k: int)
    requires
        0 <= k <= p.len(),
    ensures
        macd_line_seq(p.take(k)) =~= macd_line_seq(p).take(k),
{
    assert forall|i: int| 0 <= i < k implies macd_line_seq(p.take(k))[i] == macd_line_seq(
        p,
    ).take(k)[i] by {
        assert(p.take(k).take(i + 1) =~= p.take(i + 1));
    }
}

/// Streaming MACD: the 12- and 26-period averages of the inputs and the
/// 9-period average of their difference.
pub struct MacdState {
    /// 12-period average of the inputs.
    pub ema_fast: EmaState,
    /// 26-period average of the inputs.
    pub ema_slow: EmaState,
    /// 9-period average of the MACD line.
    pub ema_signal: EmaState,
    /// MACD line value after each input so far.
    pub macd_values: Vec<i64>,
    /// Histogram value (MACD minus signal) after each input so far.
    pub histogram_values: Vec<i64>,
    /// Every input seen so far.
    pub hist: Ghost<Seq<int>>,
}

impl MacdState {
    /// State and history agree; inputs stay within `field_ok` bounds so the
    /// derived MACD line stays within `INNER_LIMIT`.
    pub open spec fn wf(self) -> bool {
        &&& forall|i: int|
            0 <= i < self.hist@.len() ==> -VAL_LIMIT <= #[trigger] self.hist@[i] <= VAL_LIMIT
        &&& self.ema_fast.wf() && self.ema_fast.n == 12 && self.ema_fast.hist@ == self.hist@
        &&& self.ema_slow.wf() && self.ema_slow.n == 26 && self.ema_slow.hist@ == self.hist@
        &&& self.ema_signal.wf() && self.ema_signal.n == 9 && self.ema_signal.hist@
            == macd_line_seq(self.hist@)
        &&& ints_of(self.macd_values@) == macd_line_seq(self.hist@)
        &&& ints_of(self.histogram_values@) == histogram_series(self.hist@)
    }

    /// Fresh state with an empty history.
    pub fn new() -> (s: MacdState)
        ensures
            s.wf(),
            s.hist@ == Seq::<int>::empty(),
            s.macd_values@.len() == 0,
    {
        let s = MacdState {
            ema_fast: EmaState::new(12),
            ema_slow: EmaState::new(26),
            ema_signal: EmaState::new(9),
            macd_values: Vec::new(),
            histogram_values: Vec::new(),
            hist: Ghost(Seq::empty()),
        };
        proof {
            assert(macd_line_seq(s.hist@) =~= Seq::<int>::empty());
            assert(ints_of(s.macd_values@) =~= macd_line_seq(s.hist@));
            assert(ints_of(s.histogram_values@) =~= histogram_series(s.hist@));
        }
        s
    }

    /// Feed one input; returns the new MACD line, signal line and histogram
    /// values, in that order.
    pub fn update(&mut self, p: i64) -> (r: (i64, i64, i64))
        requires
            old(self).wf(),
            -VAL_LIMIT <= p <= VAL_LIMIT,
            old(self).hist@.len() < usize::MAX,
        ensures
            final(self).wf(),
            final(self).hist@ == old(self).hist@.push(p as int),
            r.0 as int == macd_line_at(final(self).hist@, final(self).hist@.len() - 1),
            r.1 as int == signal_last(final(self).hist@),
            r.2 as int == r.0 as int - r.1 as int,
            final(self).macd_values@ == old(self).macd_values@.push(r.0),
            final(self).ema_signal.values@ == old(self).ema_signal.values@.push(r.1),
            final(self).histogram_values@ == old(self).histogram_values@.push(r.2),
    {
        let ghost oldh = self.hist@;
        let ghost newh = oldh.push(p as int);
        proof {
            self.hist@ = newh;
        }
        let v_fast = self.ema_fast.update(p);
        let v_slow = self.ema_slow.update(p);
        proof {
            lemma_ema_bounded(newh, 12, VAL_LIMIT as int);
            lemma_ema_bounded(newh, 26, VAL_LIMIT as int);
            assert(newh.take(newh.len() as int) =~= newh);
        }
        let m = v_fast - v_slow;
        proof {
            assert(m as int == macd_line_at(newh, newh.len() - 1));
            lemma_macd_line_prefix(newh, oldh.len() as int);
            assert(newh.take(oldh.len() as int) =~= oldh);
            assert(macd_line_seq(newh) =~= macd_line_seq(oldh).push(m as int)) by {
                assert(macd_line_seq(oldh) =~= macd_line_seq(newh).take(oldh.len() as int));
            }
        }
        let s = self.ema_signal.update(m);
        proof {
            assert(self.ema_signal.hist@ =~= macd_line_seq(newh));
            assert forall|i: int| 0 <= i < macd_line_seq(newh).len() implies -2 * (
            VAL_LIMIT as int) <= #[trigger] macd_line_seq(newh)[i] <= 2 * (VAL_LIMIT as int) by {
                assert(forall|k: int|
                    0 <= k < newh.take(i + 1).len() ==> -VAL_LIMIT <= #[trigger] newh.take(
                        i + 1,
                    )[k] <= VAL_LIMIT);
                lemma_ema_bounded(newh.take(i + 1), 12, VAL_LIMIT as int);
                lemma_ema_bounded(newh.take(i + 1), 26, VAL_LIMIT as int);
            }
            lemma_ema_bounded(macd_line_seq(newh), 9, 2 * (VAL_LIMIT as int));
            assert(s as int == signal_last(newh));
        }
        let h = m - s;
        self.macd_values.push(m);
        self.histogram_values.push(h);
        proof {
            assert(ints_of(self.macd_values@) =~= macd_line_seq(newh)) by {
                assert(ints_of(self.macd_values@) =~= ints_of(old(self).macd_values@).push(
                    m as int,
                ));
            }
            assert(ints_of(self.histogram_values@) =~= histogram_series(newh)) by {
                assert(ints_of(self.histogram_values@) =~= ints_of(
                    old(self).histogram_values@,
                ).push(h as int));
                assert forall|i: int| 0 <= i < oldh.len() implies histogram_series(newh)[i]
                    == histogram_series(oldh)[i] by {
                    lemma_macd_line_prefix(newh, oldh.len() as int);
                    assert(macd_line_seq(oldh) =~= macd_line_seq(newh).take(oldh.len() as int));
                    assert forall|k: int| 0 <= k < oldh.len() implies #[trigger] macd_line_seq(
                        newh,
                    ).take(oldh.len() as int).take(k + 1) =~= macd_line_seq(newh).take(k + 1) by {
                    }
                    assert(signal_series(oldh)[i] == signal_series(newh)[i]);
                }
                assert(histogram_series(newh)[oldh.len() as int] == h as int) by {
                    assert(macd_line_seq(newh).take(newh.len() as int) =~= macd_line_seq(newh));
                }
            }
        }
        (m, s, h)
    }
}

} // verus!

verus! {

/// Integer square root of a non-negative integer, defined by counting up.
pub open spec fn sqrt_floor(x: int) -> int
    decreases x,
{
    if x <= 0 {
        0
    } else {
        let r = sqrt_floor(x - 1);
        if (r + 1) * (r + 1) <= x {
            r + 1
        } else {
            r
        }
    }
}

/// `sqrt_floor` is the greatest integer whose square does not exceed `x`.
pub proof fn lemma_sqrt_floor_props(x: int)
    requires
        0 <= x,
    ensures
        0 <= sqrt_floor(x),
        sqrt_floor(x) * sqrt_floor(x) <= x,
        x < (sqrt_floor(x) + 1) * (sqrt_floor(x) + 1),
    decreases x,
{
    if x == 0 {
    } else {
        lemma_sqrt_floor_props(x - 1);
        let r = sqrt_floor(x - 1);
        if (r + 1) * (r + 1) <= x {
            assert(x == (r + 1) * (r + 1));
            assert(x < (r + 2) * (r + 2)) by (nonlinear_arith)
                requires
                    x == (r + 1) * (r + 1),
                    0 <= r,
            {}
        }
    }
}

/// Any integer meeting the square-root bracketing equals `sqrt_floor`.
pub proof fn lemma_sqrt_floor_unique(x: int, r: int)
    requires
        0 <= x,
        0 <= r,
        r * r <= x,
        x < (r + 1) * (r + 1),
    ensures
        r == sqrt_floor(x),
{
    lemma_sqrt_floor_props(x);
    let s = sqrt_floor(x);
    if r < s {
        assert((r + 1) * (r + 1) <= s * s) by (nonlinear_arith)
            requires
                r + 1 <= s,
                0 <= r,
        {}
    } else if s < r {
        assert((s + 1) * (s + 1) <= r * r) by (nonlinear_arith)
            requires
                s + 1 <= r,
                0 <= s,
        {}
    }
}

/// A sequence of non-negative values has a non-negative sum.
pub proof fn lemma_seq_sum_nonneg(s: Seq<int>)
    requires
        forall|i: int| 0 <= i < s.len() ==> 0 <= #[trigger] s[i],
    ensures
        0 <= seq_sum(s),
    decreases s.len(),
{
    if s.len() > 0 {
        lemma_seq_sum_nonneg(s.drop_last());
    }
}

/// Squared deviations of a window from a centre value.
pub open spec fn sq_devs(w: Seq<int>, m: int) -> Seq<int> {
    w.map_values(|x: int| (x - m) * (x - m))
}

/// Population variance of the trailing 20-window around its mean, with
/// floor division.
pub open spec fn bb_var_last(p: Seq<int>) -> int
    recommends
        p.len() >= 1,
{
    seq_sum(sq_devs(win(p, 20), sma_last(p, 20))) / (win(p, 20).len() as int)
}

/// Standard deviation (integer square root of the variance) of the
/// trailing 20-window.
pub open spec fn bb_sd_last(p: Seq<int>) -> int {
    sqrt_floor(bb_var_last(p))
}

/// Upper Bollinger band: middle band plus two standard deviations. The
/// middle band is exactly `sma_last(p, 20)`.
pub open spec fn bb_upper_last(p: Seq<int>) -> int {
    sma_last(p, 20) + 2 * bb_sd_last(p)
}

/// Lower Bollinger band: middle band minus two standard deviations.
pub open spec fn bb_lower_last(p: Seq<int>) -> int {
    sma_last(p, 20) - 2 * bb_sd_last(p)
}

/// Per-index upper band over the growing prefixes of `p`.
pub open spec fn bb_upper_series(p: Seq<int>) -> Seq<int> {
    Seq::new(p.len(), |i: int| bb_upper_last(p.take(i + 1)))
}

/// Per-index lower band over the growing prefixes of `p`.
pub open spec fn bb_lower_series(p: Seq<int>) -> Seq<int> {
    Seq::new(p.len(), |i: int| bb_lower_last(p.take(i + 1)))
}

/// Streaming Bollinger bands over a 20-period window with two standard
/// deviations; the middle band is the concurrently computed 20-period
/// simple moving average.
pub struct BollState {
    /// The middle band: a 20-period simple moving average, whose buffer is
    /// also the window the deviation is computed over.
    pub sma: SmaState,
    /// Upper band value after each input so far.
    pub upper_values: Vec<i64>,
    /// Lower band value after each input so far.
    pub lower_values: Vec<i64>,
    /// Every input seen so far.
    pub hist: Ghost<Seq<int>>,
}

impl BollState {
    /// State and history agree.
    pub open spec fn wf(self) -> bool {
        &&& self.sma.wf() && self.sma.window == 20 && self.sma.hist@ == self.hist@
        &&& ints_of(self.upper_values@) == bb_upper_series(self.hist@)
        &&& ints_of(self.lower_values@) == bb_lower_series(self.hist@)
    }

    /// Fresh state with an empty history.
    pub fn new() -> (s: BollState)
        ensures
            s.wf(),
            s.hist@ == Seq::<int>::empty(),
            s.upper_values@.len() == 0,
    {
        let s = BollState {
            sma: SmaState::new(20),
            upper_values: Vec::new(),
            lower_values: Vec::new(),
            hist: Ghost(Seq::empty()),
        };
        proof {
            assert(ints_of(s.upper_values@) =~= bb_upper_series(s.hist@));
            assert(ints_of(s.lower_values@) =~= bb_lower_series(s.hist@));
        }
        s
    }

    /// Feed one input; returns middle, upper and lower band values.
    pub fn update(&mut self, p: i64) -> (r: (i64, i64, i64))
        requires
            old(self).wf(),
            -INNER_LIMIT <= p <= INNER_LIMIT,
        ensures
            final(self).wf(),
            final(self).hist@ == old(self).hist@.push(p as int),
            r.0 as int == sma_last(final(self).hist@, 20),
            r.1 as int == bb_upper_last(final(self).hist@),
            r.2 as int == bb_lower_last(final(self).hist@),
            final(self).sma.values@ == old(self).sma.values@.push(r.0),
            final(self).upper_values@ == old(self).upper_values@.push(r.1),
            final(self).lower_values@ == old(self).lower_values@.push(r.2),
    {
        let ghost oldh = self.hist@;
        let ghost newh = oldh.push(p as int);
        proof {
            self.hist@ = newh;
        }
        let m = self.sma.update(p);
        let ghost w = win(newh, 20);
        let ghost devs = sq_devs(w, m as int);
        let k = self.sma.buf.len();
        let mut acc: i128 = 0;
        let mut j: usize = 0;
        proof {
            assert(devs.take(0) =~= Seq::<int>::empty());
            assert forall|i: int| 0 <= i < self.sma.buf@.len() implies -INNER_LIMIT
                <= #[trigger] self.sma.buf@[i] <= INNER_LIMIT by {
                assert(ints_of(self.sma.buf@)[i] == self.sma.buf@[i] as int);
                if newh.len() <= 20 {
                    assert(win(newh, 20)[i] == newh[i]);
                } else {
                    assert(win(newh, 20)[i] == newh[newh.len() - 20 + i]);
                }
            }
            assert(self.sma.buf@.len() <= 20);
        }
        while j < k
            invariant
                j <= k,
                k <= 20,
                k == self.sma.buf@.len(),
                ints_of(self.sma.buf@) == w,
                devs == sq_devs(w, m as int),
                -INNER_LIMIT <= m <= INNER_LIMIT,
                forall|i: int|
                    0 <= i < self.sma.buf@.len() ==> -INNER_LIMIT <= #[trigger] self.sma.buf@[i]
                        <= INNER_LIMIT,
                acc == seq_sum(devs.take(j as int)),
                0 <= acc <= j as int * 64_000_000_000_000_000_000_000_000_000_000,
            decreases k - j,
        {
            let d: i64 = self.sma.buf[j] - m;
            proof {
                assert(0 <= (d as int) * (d as int) <= 64_000_000_000_000_000_000_000_000_000_000)
                    by (nonlinear_arith)
                    requires
                        -8_000_000_000_000_000 <= d as int <= 8_000_000_000_000_000,
                {}
                assert(j as int * 64_000_000_000_000_000_000_000_000_000_000 <= 20
                    * 64_000_000_000_000_000_000_000_000_000_000) by (nonlinear_arith)
                    requires
                        j as int <= 20,
                {}
            }
            let dd: i128 = (d as i128) * (d as i128);
            proof {
                assert((j as int + 1) * 64_000_000_000_000_000_000_000_000_000_000 == j as int
                    * 64_000_000_000_000_000_000_000_000_000_000
                    + 64_000_000_000_000_000_000_000_000_000_000) by (nonlinear_arith);
                assert(devs.take(j as int + 1) =~= devs.take(j as int).push(devs[j as int]));
                assert(devs.take(j as int + 1).drop_last() =~= devs.take(j as int));
                assert(devs[j as int] == dd);
                assert(seq_sum(devs.take(j as int + 1)) == seq_sum(devs.take(j as int)) + dd);
            }
            acc = acc + dd;
            j = j + 1;
        }
        proof {
            assert(devs.take(k as int) =~= devs);
            assert forall|i: int| 0 <= i < devs.len() implies 0 <= #[trigger] devs[i]
                <= 64_000_000_000_000_000_000_000_000_000_000 by {
                let x = w[i];
                assert(0 <= (x - m as int) * (x - m as int)
                    <= 64_000_000_000_000_000_000_000_000_000_000) by (nonlinear_arith)
                    requires
                        -INNER_LIMIT <= x <= INNER_LIMIT,
                        -INNER_LIMIT <= m as int <= INNER_LIMIT,
                {}
            }
            lemma_seq_sum_bounded(devs, 64_000_000_000_000_000_000_000_000_000_000);
            lemma_seq_sum_nonneg(devs);
            assert(devs.len() == k);
            assert(k as int * 64_000_000_000_000_000_000_000_000_000_000 == (devs.len() as int)
                * 64_000_000_000_000_000_000_000_000_000_000) by (nonlinear_arith)
                requires
                    k as int == devs.len() as int,
            {}
            lemma_div_le(acc as int, k as int, 64_000_000_000_000_000_000_000_000_000_000);
            vstd::arithmetic::div_mod::lemma_div_pos_is_pos(acc as int, k as int);
        }
        let var = div_floor(acc, k as i128);
        proof {
            assert(var as int == bb_var_last(newh));
        }
        let sd_wide = crate::num::isqrt(var as u128);
        proof {
            assert(sd_wide as int * sd_wide as int <= var as int);
            assert(sd_wide as int <= 8_000_000_000_000_000) by (nonlinear_arith)
                requires
                    sd_wide as int * sd_wide as int <= var as int,
                    var as int <= 64_000_000_000_000_000_000_000_000_000_000,
                    0 <= sd_wide as int,
            {}
            lemma_sqrt_floor_unique(var as int, sd_wide as int);
        }
        let sd = sd_wide as i64;
        let upper = m + 2 * sd;
        let lower = m - 2 * sd;
        self.upper_values.push(upper);
        self.lower_values.push(lower);
        proof {
            assert(upper as int == bb_upper_last(newh));
            assert(lower as int == bb_lower_last(newh));
            assert forall|i: int| 0 <= i < oldh.len() implies #[trigger] newh.take(i + 1)
                =~= oldh.take(i + 1) by {
            }
            assert(newh.take(newh.len() as int) =~= newh);
            assert(ints_of(self.upper_values@) =~= bb_upper_series(newh)) by {
                assert(ints_of(self.upper_values@) =~= ints_of(old(self).upper_values@).push(
                    upper as int,
                ));
            }
            assert(ints_of(self.lower_values@) =~= bb_lower_series(newh)) by {
                assert(ints_of(self.lower_values@) =~= ints_of(old(self).lower_values@).push(
                    lower as int,
                ));
            }
        }
        (m, upper, lower)
    }
}

} // verus!

verus! {

/// The integers behind a vector of wide accumulator values.
pub open spec fn ints_of_wide(s: Seq<i128>) -> Seq<int> {
    s.map_values(|v: i128| v as int)
}

/// On-balance volume after the last index: a running sum that adds the
/// volume when the close rose, subtracts it when it fell, and is unchanged
/// on a flat close; it starts at zero.
pub open spec fn obv_last(c: Seq<int>, v: Seq<int>) -> int
    recommends
        c.len() == v.len(),
    decreases c.len(),
{
    if c.len() <= 1 {
        0
    } else {
        obv_last(c.drop_last(), v.drop_last()) + if c.last() > c[c.len() - 2] {
            v.last()
        } else if c.last() < c[c.len() - 2] {
            -v.last()
        } else {
            0
        }
    }
}

/// Per-index on-balance volume over the growing prefixes.
pub open spec fn obv_series(c: Seq<int>, v: Seq<int>) -> Seq<int> {
    Seq::new(c.len(), |i: int| obv_last(c.take(i + 1), v.take(i + 1)))
}

/// Streaming on-balance volume.
pub struct ObvState {
    /// Current running sum.
    pub obv: i128,
    /// Most recent close.
    pub prev: i64,
    /// Number of inputs seen so far.
    pub count: usize,
    /// Output value after each input so far.
    pub values: Vec<i128>,
    /// Every close seen so far.
    pub hist_close: Ghost<Seq<int>>,
    /// Every volume seen so far.
    pub hist_vol: Ghost<Seq<int>>,
}

impl ObvState {
    /// State and history agree.
    pub open spec fn wf(self) -> bool {
        &&& self.hist_close@.len() == self.hist_vol@.len()
        &&& self.count == self.hist_close@.len()
        &&& forall|i: int|
            0 <= i < self.hist_close@.len() ==> -VAL_LIMIT <= #[trigger] self.hist_close@[i]
                <= VAL_LIMIT
        &&& forall|i: int|
            0 <= i < self.hist_vol@.len() ==> -VAL_LIMIT <= #[trigger] self.hist_vol@[i]
                <= VAL_LIMIT
        &&& self.count >= 1 ==> self.prev as int == self.hist_close@.last()
        &&& self.obv as int == obv_last(self.hist_close@, self.hist_vol@)
        &&& -(self.count as int) * (VAL_LIMIT as int) <= self.obv as int <= (self.count as int) * (
        VAL_LIMIT as int)
        &&& ints_of_wide(self.values@) == obv_series(self.hist_close@, self.hist_vol@)
    }

    /// Fresh state with an empty history.
    pub fn new() -> (s: ObvState)
        ensures
            s.wf(),
            s.hist_close@ == Seq::<int>::empty(),
            s.values@.len() == 0,
    {
        let s = ObvState {
            obv: 0,
            prev: 0,
            count: 0,
            values: Vec::new(),
            hist_close: Ghost(Seq::empty()),
            hist_vol: Ghost(Seq::empty()),
        };
        proof {
            assert(ints_of_wide(s.values@) =~= obv_series(s.hist_close@, s.hist_vol@));
        }
        s
    }

    /// Feed one close/volume pair; returns the new running sum.
    pub fn update(&mut self, close: i64, vol: i64) -> (r: i128)
        requires
            old(self).wf(),
            -VAL_LIMIT <= close <= VAL_LIMIT,
            -VAL_LIMIT <= vol <= VAL_LIMIT,
            old(self).count < usize::MAX,
        ensures
            final(self).wf(),
            final(self).count == old(self).count + 1,
            final(self).hist_close@ == old(self).hist_close@.push(close as int),
            final(self).hist_vol@ == old(self).hist_vol@.push(vol as int),
            r as int == obv_last(final(self).hist_close@, final(self).hist_vol@),
            final(self).values@ == old(self).values@.push(r),
    {
        let ghost oldc = self.hist_close@;
        let ghost oldv = self.hist_vol@;
        let ghost newc = oldc.push(close as int);
        let ghost newv = oldv.push(vol as int);
        proof {
            self.hist_close@ = newc;
            self.hist_vol@ = newv;
            assert(newc.drop_last() =~= oldc);
            assert(newv.drop_last() =~= oldv);
            assert((self.count as int + 1) * (VAL_LIMIT as int) == (self.count as int) * (
            VAL_LIMIT as int) + VAL_LIMIT) by (nonlinear_arith);
            assert((self.count as int) * (VAL_LIMIT as int)
                <= 40_000_000_000_000_000_000_000_000_000_000_000) by (nonlinear_arith)
                requires
                    0 <= self.count as int <= 40_000_000_000_000_000_000,
        {}
        }
        if self.count > 0 {
            if close > self.prev {
                self.obv = self.obv + (vol as i128);
            } else if close < self.prev {
                self.obv = self.obv - (vol as i128);
            }
        }
        self.prev = close;
        self.count = self.count + 1;
        self.values.push(self.obv);
        proof {
            assert(self.obv as int == obv_last(newc, newv));
            assert(ints_of_wide(self.values@) =~= obv_series(newc, newv)) by {
                assert(ints_of_wide(self.values@) =~= ints_of_wide(old(self).values@).push(
                    self.obv as int,
                ));
                assert forall|i: int| 0 <= i < oldc.len() implies #[trigger] newc.take(i + 1)
                    =~= oldc.take(i + 1) by {
                }
                assert forall|i: int| 0 <= i < oldv.len() implies #[trigger] newv.take(i + 1)
                    =~= oldv.take(i + 1) by {
                }
                assert(newc.take(newc.len() as int) =~= newc);
                assert(newv.take(newv.len() as int) =~= newv);
            }
        }
        self.obv
    }
}

/// True range at index `i`: the greatest of high minus low, the absolute
/// move of the high from the previous close, and the absolute move of the
/// low from the previous close.
pub open spec fn tr_at(s: Seq<Candle>, i: int) -> int
    recommends
        1 <= i < s.len(),
{
    let h = s[i].high as int;
    let l = s[i].low as int;
    let pc = s[i - 1].close as int;
    let r1 = h - l;
    let r2 = if h - pc >= 0 {
        h - pc
    } else {
        pc - h
    };
    let r3 = if l - pc >= 0 {
        l - pc
    } else {
        pc - l
    };
    if r1 >= r2 && r1 >= r3 {
        r1
    } else if r2 >= r3 {
        r2
    } else {
        r3
    }
}

/// Wilder-smoothed average true range after the last index: zero until a
/// second candle arrives, then `(atr * (n-1) + tr) / n` with floor
/// division.
pub open spec fn atr_last(s: Seq<Candle>, n: nat) -> int
    recommends
        n >= 1,
    decreases s.len(),
{
    if s.len() <= 1 {
        0
    } else {
        (atr_last(s.drop_last(), n) * (n - 1) + tr_at(s, s.len() - 1)) / n as int
    }
}

/// Per-index average true range over the growing prefixes.
pub open spec fn atr_series(s: Seq<Candle>, n: nat) -> Seq<int> {
    Seq::new(s.len(), |i: int| atr_last(s.take(i + 1), n))
}

/// The average true range is non-negative and bounded by twice the field
/// bound of its candles.
pub proof fn lemma_atr_bounds(s: Seq<Candle>, n: nat)
    requires
        1 <= n,
        forall|i: int| 0 <= i < s.len() ==> (#[trigger] s[i]).wf(),
    ensures
        0 <= atr_last(s, n) <= 2 * VAL_LIMIT,
    decreases s.len(),
{
    if s.len() <= 1 {
    } else {
        assert(s.drop_last()[s.len() - 2] == s[s.len() - 2]);
        lemma_atr_bounds(s.drop_last(), n);
        let a = atr_last(s.drop_last(), n);
        let t = tr_at(s, s.len() - 1);
        assert(0 <= t <= 2 * VAL_LIMIT);
        assert(a * (n - 1) + t <= n as int * (2 * (VAL_LIMIT as int)) && 0 <= a * (n - 1) + t)
            by (nonlinear_arith)
            requires
                0 <= a <= 2 * (VAL_LIMIT as int),
                0 <= t <= 2 * (VAL_LIMIT as int),
                n as int >= 1,
        {}
        lemma_div_le(a * (n - 1) + t, n as int, 2 * (VAL_LIMIT as int));
        vstd::arithmetic::div_mod::lemma_div_pos_is_pos(a * (n - 1) + t, n as int);
    }
}

/// Streaming average true range.
pub struct AtrState {
    /// Wilder smoothing period.
    pub n: usize,
    /// Current average true range.
    pub atr: i64,
    /// Most recent close.
    pub prev_close: i64,
    /// Number of candles seen so far.
    pub count: usize,
    /// Output value after each candle so far.
    pub values: Vec<i64>,
    /// Every candle seen so far.
    pub hist: Ghost<Seq<Candle>>,
}

impl AtrState {
    /// State and history agree.
    pub open spec fn wf(self) -> bool {
        &&& 1 <= self.n <= 1000
        &&& forall|i: int| 0 <= i < self.hist@.len() ==> (#[trigger] self.hist@[i]).wf()
        &&& self.count == self.hist@.len()
        &&& self.count >= 1 ==> self.prev_close as int == self.hist@.last().close as int
        &&& self.atr as int == atr_last(self.hist@, self.n as nat)
        &&& ints_of(self.values@) == atr_series(self.hist@, self.n as nat)
    }

    /// Fresh state with an empty history.
    pub fn new(n: usize) -> (s: AtrState)
        requires
            1 <= n <= 1000,
        ensures
            s.wf(),
            s.n == n,
            s.hist@ == Seq::<Candle>::empty(),
            s.values@.len() == 0,
    {
        let s = AtrState {
            n,
            atr: 0,
            prev_close: 0,
            count: 0,
            values: Vec::new(),
            hist: Ghost(Seq::empty()),
        };
        proof {
            assert(ints_of(s.values@) =~= atr_series(s.hist@, n as nat));
        }
        s
    }

    /// Feed one candle; returns the new average true range.
    pub fn update(&mut self, c: Candle) -> (v: i64)
        requires
            old(self).wf(),
            c.wf(),
            old(self).count < usize::MAX,
        ensures
            final(self).wf(),
            final(self).n == old(self).n,
            final(self).count == old(self).count + 1,
            final(self).hist@ == old(self).hist@.push(c),
            v as int == atr_last(final(self).hist@, old(self).n as nat),
            final(self).values@ == old(self).values@.push(v),
            0 <= v <= 2 * VAL_LIMIT,
    {
        let ghost oldh = self.hist@;
        let ghost n = self.n as nat;
        let ghost newh = oldh.push(c);
        proof {
            self.hist@ = newh;
            assert(newh.drop_last() =~= oldh);
            lemma_atr_bounds(oldh, n);
            lemma_atr_bounds(newh, n);
        }
        if self.count > 0 {
            let r1: i64 = c.high - c.low;
            let r2: i64 = if c.high - self.prev_close >= 0 {
                c.high - self.prev_close
            } else {
                self.prev_close - c.high
            };
            let r3: i64 = if c.low - self.prev_close >= 0 {
                c.low - self.prev_close
            } else {
                self.prev_close - c.low
            };
            let tr: i64 = if r1 >= r2 && r1 >= r3 {
                r1
            } else if r2 >= r3 {
                r2
            } else {
                r3
            };
            proof {
                assert(newh[newh.len() - 2] == oldh.last());
                assert(tr as int == tr_at(newh, newh.len() - 1));
                assert(-8_000_000_000_000_000_000 <= (self.atr as int) * ((self.n as int) - 1)
                    <= 8_000_000_000_000_000_000) by (nonlinear_arith)
                    requires
                        0 <= self.atr as int <= 2 * (VAL_LIMIT as int),
                        1 <= self.n as int <= 1000,
                {}
            }
            let num: i128 = (self.atr as i128) * ((self.n as i128) - 1) + (tr as i128);
            proof {
                let b2 = 2 * (VAL_LIMIT as int);
                assert(0 <= num <= self.n as int * b2) by (nonlinear_arith)
                    requires
                        num == (self.atr as int) * ((self.n as int) - 1) + (tr as int),
                        0 <= self.atr as int <= b2,
                        0 <= tr as int <= b2,
                        1 <= self.n as int <= 1000,
                        b2 == 2 * (VAL_LIMIT as int),
                {}
                lemma_div_le(num as int, self.n as int, 2 * (VAL_LIMIT as int));
                vstd::arithmetic::div_mod::lemma_div_pos_is_pos(num as int, self.n as int);
            }
            let q = div_floor(num, self.n as i128);
            self.atr = q as i64;
        }
        self.prev_close = c.close;
        self.count = self.count + 1;
        self.values.push(self.atr);
        proof {
            assert(self.atr as int == atr_last(newh, n));
            assert(ints_of(self.values@) =~= atr_series(newh, n)) by {
                assert(ints_of(self.values@) =~= ints_of(old(self).values@).push(self.atr as int));
                assert forall|i: int| 0 <= i < oldh.len() implies #[trigger] newh.take(i + 1)
                    =~= oldh.take(i + 1) by {
                }
                assert(newh.take(newh.len() as int) =~= newh);
            }
        }
        self.atr
    }
}

/// Least element of a non-empty sequence.
pub open spec fn seq_min(s: Seq<int>) -> int
    recommends
        s.len() >= 1,
    decreases s.len(),
{
    if s.len() <= 1 {
        s[0]
    } else {
        let m = seq_min(s.drop_last());
        if s.last() < m {
            s.last()
        } else {
            m
        }
    }
}

/// Greatest element of a non-empty sequence.
pub open spec fn seq_max(s: Seq<int>) -> int
    recommends
        s.len() >= 1,
    decreases s.len(),
{
    if s.len() <= 1 {
        s[0]
    } else {
        let m = seq_max(s.drop_last());
        if s.last() > m {
            s.last()
        } else {
            m
        }
    }
}

} // verus!

verus! {

/// The running on-balance volume sum never exceeds the series length
/// times the volume bound in magnitude.
pub proof fn lemma_obv_bounds(c: Seq<int>, v: Seq<int>)
    requires
        c.len() == v.len(),
        forall|i: int| 0 <= i < v.len() ==> -VAL_LIMIT <= #[trigger] v[i] <= VAL_LIMIT,
    ensures
        -(c.len() as int) * (VAL_LIMIT as int) <= obv_last(c, v) <= (c.len() as int) * (
        VAL_LIMIT as int),
    decreases c.len(),
{
    let l = c.len() as int;
    if c.len() <= 1 {
        assert(0 <= l * (VAL_LIMIT as int) && -(l * (VAL_LIMIT as int)) <= 0) by (nonlinear_arith)
            requires
                0 <= l,
        {}
    } else {
        lemma_obv_bounds(c.drop_last(), v.drop_last());
        assert((l - 1) * (VAL_LIMIT as int) + VAL_LIMIT == l * (VAL_LIMIT as int))
            by (nonlinear_arith);
        assert(forall|i: int| 0 <= i < v.len() - 1 ==> v.drop_last()[i] == v[i]);
    }
}

} // verus!

verus! {

/// Middle Bollinger band at the last index.
pub open spec fn bb_middle_last(p: Seq<int>) -> int {
    sma_last(p, 20)
}

/// The middle Bollinger band equals the concurrently computed 20-period
/// simple moving average, at every index of every series.
pub proof fn lemma_bollinger_middle_is_sma(p: Seq<int>, i: int)
    requires
        0 <= i < p.len(),
    ensures
        bb_middle_last(p.take(i + 1)) == sma_series(p, 20)[i],
{
}

/// The MACD histogram is exactly the MACD line minus the signal line, at
/// every index of every series.
pub proof fn lemma_histogram_is_difference(p: Seq<int>, i: int)
    requires
        0 <= i < p.len(),
    ensures
        histogram_series(p)[i] == macd_line_seq(p)[i] - signal_series(p)[i],
{
}

} // verus!
