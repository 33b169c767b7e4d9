//! Fixed-window per-address rate limiting, used for credential issuance and
//! for proxy ingress.
use vstd::prelude::*;
use vstd::string::StringExecFns;
use crate::text::str_eq;

verus! {

/// The counter kept for one address: how many requests were admitted in the
/// window that started at `window_start`.
pub struct RateBucket {
    pub ip: String,
    pub count: u32,
    pub window_start: u64,
}

/// Index of the bucket for `ip`, or -1 when there is none.
pub open spec fn bucket_idx(bs: Seq<RateBucket>, ip: Seq<char>) -> int
    decreases bs.len(),
{
    if bs.len() == 0 {
        -1
    } else if bs[0].ip@ == ip {
        0
    } else {
        let r = bucket_idx(bs.drop_first(), ip);
        if r < 0 {
            -1
        } else {
            r + 1
        }
    }
}

pub proof fn lemma_bucket_idx_found(bs: Seq<RateBucket>, ip: Seq<char>, i: int)
    requires
        0 <= i < bs.len(),
        bs[i].ip@ == ip,
        forall|j: int| 0 <= j < i ==> (#[trigger] bs[j].ip)@ != ip,
    ensures
        bucket_idx(bs, ip) == i,
    decreases i,
{
    if i > 0 {
        assert(bs[0].ip@ != ip);
        let t = bs.drop_first();
        assert(t[i - 1].ip@ == ip);
        assert(forall|j: int| 0 <= j < i - 1 ==> (#[trigger] t[j].ip)@ != ip);
        lemma_bucket_idx_found(t, ip, i - 1);
    }
}

pub proof fn lemma_bucket_idx_missing(bs: Seq<RateBucket>, ip: Seq<char>)
    requires
        forall|j: int| 0 <= j < bs.len() ==> (#[trigger] bs[j].ip)@ != ip,
    ensures
        bucket_idx(bs, ip) == -1,
    decreases bs.len(),
{
    if bs.len() > 0 {
        let t = bs.drop_first();
        assert(forall|j: int| 0 <= j < t.len() ==> (#[trigger] t[j].ip)@ != ip);
        lemma_bucket_idx_missing(t, ip);
    }
}

/// The answer of a rate-limit check: admitted, or refused with the seconds
/// to wait before the window rolls over.
pub enum RateDecision {
    Allowed,
    Limited { retry_after: u64 },
}

/// A fixed-window limiter: at most `max_per_window` admissions per address
/// within any window of `window_secs` seconds from that address's first
/// admitted request.
pub struct RateLimiter {
    pub max_per_window: u32,
    pub window_secs: u64,
    pub buckets: Vec<RateBucket>,
}

impl RateLimiter {
    /// At most one bucket per address.
    pub open spec fn wf(self) -> bool {
        forall|i: int, j: int|
            0 <= i < j < self.buckets@.len() ==> (#[trigger] self.buckets@[i].ip)@ != (
            #[trigger] self.buckets@[j].ip)@
    }

    /// Seconds elapsed since a window start, clamped at zero.
    pub open spec fn elapsed_spec(now: u64, start: u64) -> int {
        if now >= start {
            now - start
        } else {
            0
        }
    }

    /// What a check decides for the bucket state found.
    pub open spec fn decision_spec(self, ip: Seq<char>, now: u64) -> RateDecision {
        let i = bucket_idx(self.buckets@, ip);
        if i < 0 {
            RateDecision::Allowed
        } else {
            let b = self.buckets@[i];
            let elapsed = Self::elapsed_spec(now, b.window_start);
            if elapsed >= self.window_secs {
                RateDecision::Allowed
            } else if b.count >= self.max_per_window {
                RateDecision::Limited { retry_after: (self.window_secs - elapsed) as u64 }
            } else {
                RateDecision::Allowed
            }
        }
    }

    /// The bucket list after a check that found an existing bucket.
    pub open spec fn after_check_spec(self, ip: Seq<char>, now: u64) -> Seq<RateBucket> {
        let i = bucket_idx(self.buckets@, ip);
        if i < 0 {
            self.buckets@
        } else {
            let b = self.buckets@[i];
            let elapsed = Self::elapsed_spec(now, b.window_start);
            if elapsed >= self.window_secs {
                self.buckets@.update(i, RateBucket { ip: b.ip, count: 1, window_start: now })
            } else if b.count >= self.max_per_window {
                self.buckets@
            } else {
                self.buckets@.update(
                    i,
                    RateBucket { ip: b.ip, count: (b.count + 1) as u32, window_start: b.window_start },
                )
            }
        }
    }

    /// Create a limiter with no recorded addresses.
    pub fn new(max_per_window: u32, window_secs: u64) -> (r: RateLimiter)
        ensures
            r.wf(),
            r.max_per_window == max_per_window,
            r.window_secs == window_secs,
            r.buckets@.len() == 0,
    {
        RateLimiter { max_per_window, window_secs, buckets: Vec::new() }
    }

    /// Record one request from `ip` at time `now` and decide whether it is
    /// admitted. Refusals do not consume the window's budget.
    pub fn check(&mut self, ip: &str, now: u64) -> (r: RateDecision)
        requires
            old(self).wf(),
        ensures
            final(self).wf(),
            final(self).max_per_window == old(self).max_per_window,
            final(self).window_secs == old(self).window_secs,
            r == old(self).decision_spec(ip@, now),
            ({
                let i = bucket_idx(old(self).buckets@, ip@);
                if i < 0 {
                    &&& final(self).buckets@.len() == old(self).buckets@.len() + 1
                    &&& final(self).buckets@.subrange(0, old(self).buckets@.len() as int) =~= old(
                        self,
                    ).buckets@
                    &&& final(self).buckets@.last().ip@ == ip@
                    &&& final(self).buckets@.last().count == 1
                    &&& final(self).buckets@.last().window_start == now
                } else {
                    final(self).buckets@ =~= old(self).after_check_spec(ip@, now)
                }
            }),
    {
        let n = self.buckets.len();
        let mut i: usize = 0;
        while i < n
            invariant
                n == self.buckets@.len(),
                i <= n,
                forall|j: int| 0 <= j < i ==> (#[trigger] self.buckets@[j].ip)@ != ip@,
                *old(self) == *self,
                old(self).wf(),
            decreases n - i,
        {
            if str_eq(self.buckets[i].ip.as_str(), ip) {
                proof {
                    lemma_bucket_idx_found(self.buckets@, ip@, i as int);
                }
                let st = self.buckets[i].window_start;
                let elapsed: u64 = if now >= st {
                    now - st
                } else {
                    0
                };
                if elapsed >= self.window_secs {
                    let ip_owned = self.buckets[i].ip.clone();
                    self.buckets.set(i, RateBucket { ip: ip_owned, count: 1, window_start: now });
                    return RateDecision::Allowed;
                } else if self.buckets[i].count >= self.max_per_window {
                    return RateDecision::Limited { retry_after: self.window_secs - elapsed };
                } else {
                    let ip_owned = self.buckets[i].ip.clone();
                    let c = self.buckets[i].count;
                    let ws = self.buckets[i].window_start;
                    self.buckets.set(i, RateBucket { ip: ip_owned, count: c + 1, window_start: ws });
                    return RateDecision::Allowed;
                }
            }
            i = i + 1;
        }
        proof {
            lemma_bucket_idx_missing(self.buckets@, ip@);
        }
        self.buckets.push(RateBucket { ip: ip.to_owned(), count: 1, window_start: now });
        RateDecision::Allowed
    }
}

} // verus!
