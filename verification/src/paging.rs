//! Pagination over a bounded-size page API: a state machine that decides,
//! page by page, whether another request is needed and from which start
//! time. The caller performs the requests and feeds each outcome back.

use vstd::prelude::*;

verus! {

/// State of one paged fetch of the range `[next_start, end_time]`.
///
/// The driver loop asks [`Paginator::next_request`] for the next request,
/// performs it, and reports the outcome through [`Paginator::on_page`] or
/// [`Paginator::on_failure`]. A late page failure is not fatal: the fetch
/// ends as `done` and `truncated`, keeping what was accumulated.
#[derive(Clone, Copy, PartialEq, Eq, Structural, Debug)]
pub struct Paginator {
    /// Exclusive upper bound of the requested time range, epoch ms.
    pub end_time: u64,
    /// Largest number of candles one page may return.
    pub page_limit: usize,
    /// Start time the next request would use.
    pub next_start: u64,
    /// Number of requests answered so far (pages and failures).
    pub requests_made: u64,
    /// No further request is needed.
    pub done: bool,
    /// The fetch ended early and holds only part of the range.
    pub truncated: bool,
}

/// The successor state after a page with `rows` candles whose last close
/// time was `last_close` (`None` when the page's last row was too short to
/// carry one).
///
/// A short or empty page completes the fetch. A full page continues from
/// one time unit past its last close time; a continuation that would not
/// advance, or a malformed last row, ends the fetch as truncated so that
/// pagination can never loop.
pub open spec fn page_step(pre: Paginator, rows: nat, last_close: Option<u64>) -> Paginator {
    let counted = Paginator { requests_made: (pre.requests_made + 1) as u64, ..pre };
    if rows < pre.page_limit as nat {
        // Covers the empty page: nothing further can come.
        Paginator { done: true, ..counted }
    } else {
        match last_close {
            Option::None => Paginator { done: true, truncated: true, ..counted },
            Option::Some(ct) => {
                if ct >= pre.end_time || ct + 1 >= pre.end_time {
                    Paginator { done: true, ..counted }
                } else if ct < pre.next_start {
                    Paginator { done: true, truncated: true, ..counted }
                } else {
                    Paginator { next_start: (ct + 1) as u64, ..counted }
                }
            },
        }
    }
}

/// Milliseconds of the range still uncovered; the strictly decreasing
/// measure of the pagination loop.
pub open spec fn remaining(p: Paginator) -> int {
    if p.done || p.next_start > p.end_time {
        0
    } else {
        p.end_time - p.next_start
    }
}

impl Paginator {
    /// Start a fetch of `[start_time, end_time]` in pages of at most
    /// `page_limit` candles.
    pub fn new(start_time: u64, end_time: u64, page_limit: usize) -> (p: Paginator)
        requires
            start_time <= end_time,
            1 <= page_limit,
        ensures
            p == (Paginator {
                end_time,
                page_limit,
                next_start: start_time,
                requests_made: 0,
                done: false,
                truncated: false,
            }),
    {
        Paginator {
            end_time,
            page_limit,
            next_start: start_time,
            requests_made: 0,
            done: false,
            truncated: false,
        }
    }

    /// The time range the next page request must use, or `None` when the
    /// fetch is complete.
    pub fn next_request(&self) -> (r: Option<(u64, u64)>)
        ensures
            r == if self.done {
                Option::<(u64, u64)>::None
            } else {
                Option::Some((self.next_start, self.end_time))
            },
    {
        if self.done {
            None
        } else {
            Some((self.next_start, self.end_time))
        }
    }

    /// Record a successfully answered page: `rows` candles, the last one
    /// closing at `last_close_time` if the row carried a close time.
    ///
    /// Every continuing step strictly advances `next_start`, and an empty
    /// page always completes the fetch, so pagination terminates.
    pub fn on_page(&mut self, rows: usize, last_close_time: Option<u64>)
        requires
            !old(self).done,
            1 <= old(self).page_limit,
            old(self).requests_made < u64::MAX,
        ensures
            *final(self) == page_step(*old(self), rows as nat, last_close_time),
            rows == 0 ==> final(self).done,
            !final(self).done ==> old(self).next_start < final(self).next_start
                < final(self).end_time,
            !final(self).done ==> remaining(*final(self)) < remaining(*old(self)),
    {
        self.requests_made = self.requests_made + 1;
        if rows < self.page_limit {
            self.done = true;
        } else {
            match last_close_time {
                None => {
                    self.done = true;
                    self.truncated = true;
                },
                Some(ct) => {
                    if ct >= self.end_time || ct + 1 >= self.end_time {
                        self.done = true;
                    } else if ct < self.next_start {
                        self.done = true;
                        self.truncated = true;
                    } else {
                        self.next_start = ct + 1;
                    }
                },
            }
        }
    }

    /// Record a failed page request: the fetch ends with what was
    /// accumulated (the partial-result policy). The caller treats a failure
    /// of the very first request as fatal instead of calling this.
    pub fn on_failure(&mut self)
        requires
            old(self).requests_made < u64::MAX,
        ensures
            *final(self) == (Paginator {
                requests_made: (old(self).requests_made + 1) as u64,
                done: true,
                truncated: true,
                ..*old(self)
            }),
    {
        self.requests_made = self.requests_made + 1;
        self.done = true;
        self.truncated = true;
    }
}

/// One continuing pagination step stands between adjacent trace entries:
/// the earlier state was not done, the range is unchanged, and the start
/// advanced by at least `gap`.
pub open spec fn advancing_step(a: Paginator, b: Paginator, gap: int) -> bool {
    !a.done && a.end_time == b.end_time && a.next_start <= a.end_time && b.next_start
        >= a.next_start + gap && b.next_start <= b.end_time
}

/// A continuing page step is an advancing step: when `page_step` does not
/// finish the fetch, the start time moves to one past the page's last
/// close time, so any lower bound `gap` on that advance yields an
/// `advancing_step` for the request-count bound below.
pub proof fn lemma_on_page_advances(pre: Paginator, rows: nat, ct: u64, gap: int)
    requires
        !pre.done,
        pre.next_start <= pre.end_time,
        1 <= gap,
        ct + 1 >= pre.next_start + gap,
        !page_step(pre, rows, Option::Some(ct)).done,
    ensures
        advancing_step(pre, page_step(pre, rows, Option::Some(ct)), gap),
{
}

/// Pagination terminates in a bounded number of requests: a chain of
/// continuing steps that each advance the start time by at least `gap`
/// milliseconds is no longer than `range / gap + 1` states. With a full
/// page of `page_limit` candles spaced `interval` apart, `gap` is
/// `page_limit * interval`, which gives the familiar
/// `ceil(range / (page_limit * interval))` request bound.
pub proof fn lemma_request_count_bound(trace: Seq<Paginator>, gap: int)
    requires
        1 <= gap,
        trace.len() >= 1,
        trace[0].next_start <= trace[0].end_time,
        forall|i: int| 0 <= i < trace.len() - 1 ==> #[trigger] advancing_step(trace[i], trace[i + 1], gap),
    ensures
        trace.len() <= (trace[0].end_time - trace[0].next_start) / gap + 1,
    decreases trace.len(),
{
    let r0 = trace[0].end_time - trace[0].next_start;
    assert(0 <= r0 / gap) by {
        vstd::arithmetic::div_mod::lemma_div_pos_is_pos(r0, gap);
    }
    if trace.len() > 1 {
        let rest = trace.drop_first();
        assert forall|i: int| 0 <= i < rest.len() - 1 implies #[trigger] advancing_step(
            rest[i],
            rest[i + 1],
            gap,
        ) by {
            assert(rest[i] == trace[i + 1] && rest[i + 1] == trace[i + 2]);
            assert(advancing_step(trace[i + 1], trace[i + 2], gap));
        }
        let z: int = 0;
        assert(advancing_step(trace[z], trace[z + 1], gap));
        assert(rest[0] == trace[1]);
        lemma_request_count_bound(rest, gap);
        let r1 = trace[1].end_time - trace[1].next_start;
        assert(r1 <= r0 - gap);
        assert(r1 / gap <= (r0 - gap) / gap) by {
            vstd::arithmetic::div_mod::lemma_div_is_ordered(r1, r0 - gap, gap);
        }
        assert((r0 - gap) / gap == r0 / gap - 1) by {
            vstd::arithmetic::div_mod::lemma_div_minus_one(r0, gap);
        }
    }
}

} // verus!

