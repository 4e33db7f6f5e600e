//! The OHLCV data model: candles, well-formedness bounds, and the merge that
//! turns concatenated page fetches into one strictly ascending series.

use vstd::prelude::*;
use crate::num::VAL_LIMIT;

verus! {

/// Longest series the engine and the report accept; sums over a series of
/// this length stay comfortably inside 128-bit intermediates.
pub const MAX_SERIES_LEN: usize = 1_000_000;

/// One OHLCV record. `open_time` is epoch milliseconds; the other fields are
/// fixed-point values with eight decimal places.
#[derive(Clone, Copy, PartialEq, Eq, Structural, Debug)]
pub struct Candle {
    pub open_time: u64,
    pub open: i64,
    pub high: i64,
    pub low: i64,
    pub close: i64,
    pub volume: i64,
}

/// A price or volume field small enough for every windowed sum the engine
/// forms.
pub open spec fn field_ok(v: i64) -> bool {
    -VAL_LIMIT <= v <= VAL_LIMIT
}

impl Candle {
    /// All five numeric fields are within the engine's magnitude bound.
    pub open spec fn wf(self) -> bool {
        field_ok(self.open) && field_ok(self.high) && field_ok(self.low) && field_ok(self.close)
            && field_ok(self.volume)
    }
}

/// Open times strictly increase: chronological order with no duplicates.
pub open spec fn times_ascending(s: Seq<Candle>) -> bool {
    forall|i: int, j: int| 0 <= i < j < s.len() ==> s[i].open_time < s[j].open_time
}

/// Every candle in the sequence is well-formed.
pub open spec fn all_wf(s: Seq<Candle>) -> bool {
    forall|i: int| 0 <= i < s.len() ==> s[i].wf()
}

/// Some candle in `s` opens at time `t`.
pub open spec fn has_time(s: Seq<Candle>, t: u64) -> bool {
    exists|i: int| 0 <= i < s.len() && s[i].open_time == t
}

/// Index of the first candle in `s` that opens at time `t` (meaningful only
/// when `has_time(s, t)`).
pub open spec fn first_index_with_time(s: Seq<Candle>, t: u64) -> int
    decreases s.len(),
{
    if s.len() == 0 {
        0
    } else if s[0].open_time == t {
        0
    } else {
        1 + first_index_with_time(s.drop_first(), t)
    }
}

/// When `t` occurs in `s`, `first_index_with_time` names a real occurrence
/// and nothing before it opens at `t`.
pub proof fn lemma_first_index_props(s: Seq<Candle>, t: u64)
    requires
        has_time(s, t),
    ensures
        0 <= first_index_with_time(s, t) < s.len(),
        s[first_index_with_time(s, t)].open_time == t,
        forall|i: int| 0 <= i < first_index_with_time(s, t) ==> s[i].open_time != t,
    decreases s.len(),
{
    if s.len() == 0 {
    } else if s[0].open_time == t {
    } else {
        let d = s.drop_first();
        assert(has_time(d, t)) by {
            let i = choose|i: int| 0 <= i < s.len() && s[i].open_time == t;
            assert(d[i - 1] == s[i]);
        }
        lemma_first_index_props(d, t);
        let fi = first_index_with_time(s, t);
        assert(forall|i: int| 0 <= i < fi ==> s[i].open_time != t) by {
            assert(forall|i: int| 1 <= i < fi ==> s[i] == d[i - 1]);
        }
    }
}

/// A time absent from the first `j` candles and present at index `j` has its
/// first occurrence exactly at `j`.
pub proof fn lemma_first_index_at(s: Seq<Candle>, j: int, t: u64)
    requires
        0 <= j < s.len(),
        s[j].open_time == t,
        forall|i: int| 0 <= i < j ==> s[i].open_time != t,
    ensures
        first_index_with_time(s, t) == j,
    decreases j,
{
    if j == 0 {
    } else {
        let d = s.drop_first();
        assert(d[j - 1] == s[j]);
        assert(forall|i: int| 0 <= i < j - 1 ==> d[i] == s[i + 1] && d[i].open_time != t);
        lemma_first_index_at(d, j - 1, t);
    }
}

/// A merged, chronologically ordered candle series.
pub struct Series {
    pub candles: Vec<Candle>,
}

impl Series {
    /// Strictly ascending open times, bounded fields, bounded length.
    pub open spec fn wf(self) -> bool {
        times_ascending(self.candles@) && all_wf(self.candles@) && self.candles@.len()
            <= MAX_SERIES_LEN
    }

    /// Number of candles held.
    pub fn len(&self) -> (n: usize)
        ensures
            n == self.candles@.len(),
    {
        self.candles.len()
    }
}

/// Merge the concatenation of all fetched pages into one series: sort by
/// open time ascending and drop candles whose open time was already seen,
/// keeping the first occurrence in page order.
pub fn merge_pages(input: &Vec<Candle>) -> (s: Series)
    requires
        input@.len() <= MAX_SERIES_LEN,
        all_wf(input@),
    ensures
        s.wf(),
        forall|t: u64| has_time(s.candles@, t) <==> has_time(input@, t),
        forall|k: int|
            0 <= k < s.candles@.len() ==> s.candles@[k] == input@[first_index_with_time(
                input@,
                s.candles@[k].open_time,
            )],
{
    let mut out: Vec<Candle> = Vec::new();
    let ghost inp = input@;
    for j in 0..input.len()
        invariant
            input@ == inp,
            inp.len() <= MAX_SERIES_LEN,
            all_wf(inp),
            times_ascending(out@),
            all_wf(out@),
            out@.len() <= j,
            forall|t: u64| has_time(out@, t) <==> has_time(inp.take(j as int), t),
            forall|k: int|
                0 <= k < out@.len() ==> out@[k] == inp[first_index_with_time(
                    inp,
                    out@[k].open_time,
                )],
    {
        let c = input[j];
        let t = c.open_time;
        proof {
            assert(inp.take(j as int + 1) =~= inp.take(j as int) + seq![inp[j as int]]);
        }
        // Position of the first stored candle whose time is not below `t`.
        let mut p: usize = 0;
        while p < out.len() && out[p].open_time < t
            invariant
                times_ascending(out@),
                p <= out@.len(),
                forall|i: int| 0 <= i < p ==> out@[i].open_time < t,
            decreases out@.len() - p,
        {
            p = p + 1;
        }
        if p < out.len() && out[p].open_time == t {
            // Duplicate open time: keep the earlier occurrence.
            proof {
                assert(has_time(out@, t)) by {
                    assert(out@[p as int].open_time == t);
                }
                assert(forall|tt: u64|
                    has_time(inp.take(j as int + 1), tt) ==> has_time(inp.take(j as int), tt)
                        || tt == t) by {
                    assert(forall|i: int|
                        0 <= i < j ==> inp.take(j as int + 1)[i] == inp.take(j as int)[i]);
                }
            }
        } else {
            proof {
                assert(!has_time(out@, t)) by {
                    if has_time(out@, t) {
                        let i = choose|i: int| 0 <= i < out@.len() && out@[i].open_time == t;
                        if i < p {
                            assert(out@[i].open_time < t);
                        } else if i > p {
                            assert(p < out@.len());
                            assert(out@[p as int].open_time < out@[i].open_time);
                            assert(out@[p as int].open_time < t);
                        }
                    }
                }
                assert(!has_time(inp.take(j as int), t));
                assert(forall|i: int| 0 <= i < j ==> inp[i].open_time != t) by {
                    assert(forall|i: int| 0 <= i < j ==> inp.take(j as int)[i] == inp[i]);
                }
                lemma_first_index_at(inp, j as int, t);
            }
            let ghost old_out = out@;
            out.insert(p, c);
            proof {
                assert(out@ =~= old_out.insert(p as int, c));
                assert(times_ascending(out@)) by {
                    assert(forall|i: int| 0 <= i < p ==> out@[i] == old_out[i]);
                    assert(out@[p as int] == c);
                    assert(forall|i: int|
                        p < i < out@.len() ==> out@[i] == old_out[i - 1]);
                    assert(forall|i: int|
                        p <= i < old_out.len() ==> old_out[i].open_time > t) by {
                        assert(p < old_out.len() ==> old_out[p as int].open_time > t);
                        assert(forall|i: int|
                            p < i < old_out.len() ==> old_out[p as int].open_time
                                <= old_out[i].open_time);
                    }
                }
                assert forall|tt: u64| has_time(inp.take(j as int + 1), tt) implies has_time(
                    out@,
                    tt,
                ) by {
                    let pre1 = inp.take(j as int + 1);
                    let i = choose|i: int| 0 <= i < pre1.len() && pre1[i].open_time == tt;
                    if i < j {
                        assert(inp.take(j as int)[i].open_time == tt);
                        assert(has_time(inp.take(j as int), tt));
                        assert(has_time(old_out, tt));
                        let k = choose|k: int|
                            0 <= k < old_out.len() && old_out[k].open_time == tt;
                        if k < p {
                            assert(out@[k].open_time == tt);
                        } else {
                            assert(out@[k + 1].open_time == tt);
                        }
                    } else {
                        assert(out@[p as int].open_time == tt);
                    }
                }
                assert forall|tt: u64| has_time(out@, tt) implies has_time(
                    inp.take(j as int + 1),
                    tt,
                ) by {
                    let k = choose|k: int| 0 <= k < out@.len() && out@[k].open_time == tt;
                    if k == p {
                        assert(inp.take(j as int + 1)[j as int].open_time == tt);
                    } else {
                        let ko: int = if k < p {
                            k
                        } else {
                            k - 1
                        };
                        assert(old_out[ko].open_time == tt);
                        assert(has_time(old_out, tt));
                        assert(has_time(inp.take(j as int), tt));
                        let pre = inp.take(j as int);
                        let i = choose|i: int| 0 <= i < pre.len() && pre[i].open_time == tt;
                        assert(inp.take(j as int + 1)[i].open_time == tt);
                    }
                }
            }
        }
    }
    proof {
        assert(inp.take(inp.len() as int) =~= inp);
    }
    Series { candles: out }
}

} // verus!
