//! Per-connection sliding-window admission control.
//!
//! The limiter remembers each admitted message as a `(timestamp, weight)`
//! entry, timestamps in milliseconds. A message is admitted while the weight
//! admitted within the trailing window stays below the threshold; a refused
//! message is dropped and leaves no trace.

use std::collections::VecDeque;
use vstd::prelude::*;

verus! {

/// Length of the sliding window, in milliseconds.
pub const WINDOW_MS: u64 = 1000;

/// Total weight of a sequence of entries.
pub open spec fn weight_sum(q: Seq<(u64, u32)>) -> int
    decreases q.len(),
{
    if q.len() == 0 {
        0
    } else {
        weight_sum(q.drop_last()) + q.last().1
    }
}

/// The entries left once those older than the window before `now` are
/// evicted from the front.
pub open spec fn trim(q: Seq<(u64, u32)>, now: int) -> Seq<(u64, u32)>
    decreases q.len(),
{
    if q.len() > 0 && now - q[0].0 > WINDOW_MS {
        trim(q.drop_first(), now)
    } else {
        q
    }
}

/// Whether a message arriving at `now` is admitted.
pub open spec fn admits(q: Seq<(u64, u32)>, threshold: int, now: int) -> bool {
    weight_sum(trim(q, now)) < threshold
}

/// The entries after a message of weight `w` arrives at `now`.
pub open spec fn after_admit(q: Seq<(u64, u32)>, threshold: int, now: u64, w: u32) -> Seq<(u64, u32)> {
    if admits(q, threshold, now as int) {
        trim(q, now as int).push((now, w))
    } else {
        trim(q, now as int)
    }
}

/// How many of a run of messages of weight `w`, arriving at `times` one
/// after the other, are admitted.
pub open spec fn admitted_count(q: Seq<(u64, u32)>, threshold: int, times: Seq<u64>, w: u32) -> nat
    decreases times.len(),
{
    if times.len() == 0 {
        0
    } else {
        (if admits(q, threshold, times[0] as int) { 1nat } else { 0nat }) + admitted_count(
            after_admit(q, threshold, times[0], w),
            threshold,
            times.drop_first(),
            w,
        )
    }
}

pub struct RateLimiter {
    entries: VecDeque<(u64, u32)>,
    sum: u64,
    threshold: u32,
}

impl View for RateLimiter {
    type V = Seq<(u64, u32)>;

    /// The admitted entries still remembered, oldest first.
    closed spec fn view(&self) -> Seq<(u64, u32)> {
        self.entries@
    }
}

proof fn lemma_sum_front(q: Seq<(u64, u32)>)
    requires
        q.len() > 0,
    ensures
        weight_sum(q) == q[0].1 + weight_sum(q.drop_first()),
    decreases q.len(),
{
    if q.len() > 1 {
        lemma_sum_front(q.drop_last());
        assert(q.drop_first().drop_last() =~= q.drop_last().drop_first());
        assert(q.drop_first().last() == q.last());
        assert(q.drop_last()[0] == q[0]);
        assert(weight_sum(q.drop_first()) == weight_sum(q.drop_first().drop_last()) + q.last().1);
    } else {
        assert(q.drop_first().len() == 0);
        assert(q.drop_last().len() == 0);
        assert(weight_sum(q.drop_first()) == 0);
        assert(weight_sum(q.drop_last()) == 0);
        assert(q.last() == q[0]);
    }
}

proof fn lemma_sum_nonneg(q: Seq<(u64, u32)>)
    ensures
        weight_sum(q) >= 0,
    decreases q.len(),
{
    if q.len() > 0 {
        lemma_sum_nonneg(q.drop_last());
    }
}

proof fn lemma_trim_sum(q: Seq<(u64, u32)>, now: int)
    ensures
        weight_sum(trim(q, now)) <= weight_sum(q),
    decreases q.len(),
{
    if q.len() > 0 && now - q[0].0 > WINDOW_MS {
        lemma_sum_front(q);
        lemma_trim_sum(q.drop_first(), now);
    }
}

/// Whether an entry has fallen out of the window before `now`.
fn expired(entry: (u64, u32), now: u64) -> (r: bool)
    ensures
        r == (now - entry.0 > WINDOW_MS),
{
    now > entry.0 && now - entry.0 > WINDOW_MS
}

proof fn lemma_sum_units(q: Seq<(u64, u32)>)
    requires
        forall|i: int| 0 <= i < q.len() ==> #[trigger] q[i].1 == 1,
    ensures
        weight_sum(q) == q.len(),
    decreases q.len(),
{
    if q.len() > 0 {
        let p = q.drop_last();
        assert forall|i: int| 0 <= i < p.len() implies #[trigger] p[i].1 == 1 by {
            assert(p[i] == q[i]);
        }
        lemma_sum_units(p);
    }
}

proof fn lemma_burst_from(q: Seq<(u64, u32)>, threshold: int, times: Seq<u64>, start: u64)
    requires
        q.len() <= threshold,
        forall|i: int| 0 <= i < q.len() ==> #[trigger] q[i].1 == 1,
        forall|i: int| 0 <= i < q.len() ==> start <= #[trigger] q[i].0 <= start + WINDOW_MS,
        forall|j: int| 0 <= j < times.len() ==> start <= #[trigger] times[j] <= start + WINDOW_MS,
    ensures
        admitted_count(q, threshold, times, 1) == if times.len() <= threshold - q.len() {
            times.len() as int
        } else {
            threshold - q.len()
        },
    decreases times.len(),
{
    if times.len() > 0 {
        let now = times[0];
        if q.len() > 0 {
            assert(start <= q[0].0);
        }
        assert(trim(q, now as int) == q);
        lemma_sum_units(q);
        let q2 = after_admit(q, threshold, now, 1);
        let rest = times.drop_first();
        assert forall|j: int| 0 <= j < rest.len() implies start <= #[trigger] rest[j] <= start
            + WINDOW_MS by {
            assert(rest[j] == times[j + 1]);
        }
        if q.len() < threshold {
            assert(q2 == q.push((now, 1u32)));
            assert forall|i: int| 0 <= i < q2.len() implies #[trigger] q2[i].1 == 1 && start
                <= q2[i].0 <= start + WINDOW_MS by {
                if i < q.len() {
                    assert(q2[i] == q[i]);
                }
            }
        } else {
            assert(q2 == q);
        }
        lemma_burst_from(q2, threshold, rest, start);
    }
}

/// A burst of unit-weight messages that all arrive within one window, offered
/// to a limiter that remembers nothing, has exactly `threshold` of them
/// admitted when there are more, and every one admitted otherwise: what lies
/// beyond the threshold is dropped, what lies within is forwarded.
pub proof fn lemma_burst_within_window(threshold: u32, times: Seq<u64>, start: u64)
    requires
        forall|j: int| 0 <= j < times.len() ==> start <= #[trigger] times[j] <= start + WINDOW_MS,
    ensures
        admitted_count(Seq::<(u64, u32)>::empty(), threshold as int, times, 1) == if times.len()
            <= threshold {
            times.len() as int
        } else {
            threshold as int
        },
{
    lemma_burst_from(Seq::<(u64, u32)>::empty(), threshold as int, times, start);
}

impl RateLimiter {
    /// The threshold: a message is admitted while the weight remembered in
    /// the window is below it.
    pub closed spec fn limit(&self) -> int {
        self.threshold as int
    }

    pub closed spec fn wf(&self) -> bool {
        &&& self.sum as int == weight_sum(self.entries@)
        &&& self.sum < self.threshold as int + 0x1_0000_0000
    }

    pub fn new(threshold: u32) -> (r: RateLimiter)
        ensures
            r.wf(),
            r@ == Seq::<(u64, u32)>::empty(),
            r.limit() == threshold,
    {
        RateLimiter { entries: VecDeque::new(), sum: 0, threshold }
    }

    pub fn threshold(&self) -> (t: u32)
        ensures
            t == self.limit(),
    {
        self.threshold
    }

    /// Weight of the entries currently remembered.
    pub fn window_weight(&self) -> (s: u64)
        requires
            self.wf(),
        ensures
            s == weight_sum(self@),
    {
        self.sum
    }

    /// Evicts the entries older than the window before `now`, then admits a
    /// message of weight `weight` if the weight left is below the threshold.
    pub fn try_admit(&mut self, now: u64, weight: u32) -> (r: bool)
        requires
            old(self).wf(),
        ensures
            final(self).wf(),
            final(self).limit() == old(self).limit(),
            r == admits(old(self)@, old(self).limit(), now as int),
            final(self)@ == after_admit(old(self)@, old(self).limit(), now, weight),
    {
        let ghost start = self.entries@;
        proof {
            lemma_trim_sum(start, now as int);
        }
        while self.entries.len() > 0 && expired(self.entries[0], now)
            invariant
                self.sum as int == weight_sum(self.entries@),
                self.sum <= old(self).sum,
                trim(self.entries@, now as int) == trim(start, now as int),
                self.threshold == old(self).threshold,
            decreases self.entries@.len(),
        {
            let w = self.entries[0].1;
            proof {
                lemma_sum_front(self.entries@);
                lemma_sum_nonneg(self.entries@.drop_first());
            }
            self.entries.pop_front();
            self.sum = self.sum - w as u64;
        }
        proof {
            lemma_sum_nonneg(self.entries@);
        }
        assert(self.entries@ == trim(start, now as int));
        if self.sum >= self.threshold as u64 {
            false
        } else {
            self.entries.push_back((now, weight));
            self.sum = self.sum + weight as u64;
            assert(self.entries@.drop_last() =~= trim(start, now as int));
            true
        }
    }
}

} // verus!
