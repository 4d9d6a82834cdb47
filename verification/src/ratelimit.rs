//! Pacing of requests to a rate-limited API: one request per minimum
//! interval, and backing off after the server answers "too many requests".
//! Times are milliseconds on a monotonic clock read by the caller.

use vstd::prelude::*;

verus! {

/// The minimum interval between two requests (3 s).
pub const MIN_REQUEST_INTERVAL_MS: u64 = 3_000;
/// The first backoff after a throttled request without `Retry-After` (5 s).
pub const BACKOFF_BASE_MS: u64 = 5_000;
/// The ceiling of the exponential backoff (5 min).
pub const BACKOFF_MAX_MS: u64 = 300_000;

/// `base` doubled `n` times.
pub open spec fn doubling(base: nat, n: nat) -> nat
    decreases n,
{
    if n == 0 {
        base
    } else {
        2 * doubling(base, (n - 1) as nat)
    }
}

/// How many doublings the backoff gets after `throttles` consecutive
/// throttled requests: one less than their number, at most six.
pub open spec fn backoff_shift(throttles: u32) -> nat {
    if throttles == 0 {
        0
    } else if throttles - 1 > 6 {
        6
    } else {
        (throttles - 1) as nat
    }
}

/// The backoff after `throttles` consecutive throttled requests:
/// `BACKOFF_BASE_MS × 2^shift`, capped at `BACKOFF_MAX_MS`.
pub open spec fn backoff_ms(throttles: u32) -> nat {
    let b = doubling(BACKOFF_BASE_MS as nat, backoff_shift(throttles));
    if b > BACKOFF_MAX_MS {
        BACKOFF_MAX_MS as nat
    } else {
        b
    }
}

proof fn lemma_doubling_monotone(base: nat, m: nat, n: nat)
    requires
        m <= n,
    ensures
        doubling(base, m) <= doubling(base, n),
    decreases n,
{
    if m < n {
        lemma_doubling_monotone(base, m, (n - 1) as nat);
    }
}

proof fn lemma_doubling_at_most_six(n: nat)
    requires
        n <= 6,
    ensures
        doubling(BACKOFF_BASE_MS as nat, n) <= 320_000,
{
    lemma_doubling_monotone(BACKOFF_BASE_MS as nat, n, 6);
    assert(doubling(BACKOFF_BASE_MS as nat, 6) == 320_000) by {
        reveal_with_fuel(doubling, 7);
    }
}

/// The backoff after `throttles` consecutive throttled requests
/// (see [`backoff_ms`]).
pub fn backoff_for(throttles: u32) -> (ms: u64)
    ensures
        ms == backoff_ms(throttles),
{
    let mut shift: u32 = if throttles == 0 { 0 } else { throttles - 1 };
    if shift > 6 {
        shift = 6;
    }
    let mut b: u64 = BACKOFF_BASE_MS;
    let mut i: u32 = 0;
    while i < shift
        invariant
            i <= shift <= 6,
            shift == backoff_shift(throttles),
            b == doubling(BACKOFF_BASE_MS as nat, i as nat),
        decreases shift - i,
    {
        proof {
            lemma_doubling_at_most_six(i as nat);
        }
        b = b * 2;
        i = i + 1;
    }
    if b > BACKOFF_MAX_MS {
        BACKOFF_MAX_MS
    } else {
        b
    }
}

/// The pacing ledger of one source, shared by all its workers.
pub struct RateLimitState {
    /// The instant before which the next request must not be sent.
    pub next_allowed_ms: u64,
    /// Throttled requests seen since the last successful one.
    pub consecutive_throttles: u32,
}

/// The instant at which a request asked for at `now` may go out: `now`, or
/// the next allowed instant when that is later.
pub open spec fn slot(s: RateLimitState, now: u64) -> nat {
    if now >= s.next_allowed_ms {
        now as nat
    } else {
        s.next_allowed_ms as nat
    }
}

/// The ledger after a request is scheduled at its slot.
pub open spec fn acquired(s: RateLimitState, now: u64) -> RateLimitState {
    RateLimitState {
        next_allowed_ms: (slot(s, now) + MIN_REQUEST_INTERVAL_MS) as u64,
        consecutive_throttles: s.consecutive_throttles,
    }
}

/// Throttled requests counted after one more, saturating.
pub open spec fn one_more(t: u32) -> u32 {
    if t == u32::MAX {
        t
    } else {
        (t + 1) as u32
    }
}

/// How long to hold off after a throttled request: the server's
/// `Retry-After` in seconds when it gave one, else the backoff for the
/// updated throttle count.
pub open spec fn throttle_wait_ms(s: RateLimitState, retry_after_secs: Option<u64>) -> nat {
    match retry_after_secs {
        Some(secs) => (secs * 1000) as nat,
        None => backoff_ms(one_more(s.consecutive_throttles)),
    }
}

/// The ledger after a throttled request noticed at `now`: one more throttle
/// counted, and the next allowed instant pushed to `now` plus the wait when
/// that is later than it already was.
pub open spec fn throttled(s: RateLimitState, now: u64, retry_after_secs: Option<u64>) -> RateLimitState {
    let target = now + throttle_wait_ms(s, retry_after_secs);
    RateLimitState {
        next_allowed_ms: if target > s.next_allowed_ms {
            target as u64
        } else {
            s.next_allowed_ms
        },
        consecutive_throttles: one_more(s.consecutive_throttles),
    }
}

/// Whether noting a throttle at `now` keeps every instant within `u64`.
pub open spec fn throttle_fits(now: u64, retry_after_secs: Option<u64>) -> bool {
    match retry_after_secs {
        Some(secs) => now + secs * 1000 <= u64::MAX,
        None => now + BACKOFF_MAX_MS <= u64::MAX,
    }
}

impl RateLimitState {
    /// A ledger that allows a request right away.
    pub fn new(now_ms: u64) -> (s: RateLimitState)
        ensures
            s.next_allowed_ms == now_ms,
            s.consecutive_throttles == 0,
    {
        RateLimitState { next_allowed_ms: now_ms, consecutive_throttles: 0 }
    }

    /// Books the next request slot: returns how long to wait from `now`
    /// before sending, and moves the next allowed instant one minimum
    /// interval past the booked slot, so concurrent callers line up at
    /// successive slots.
    pub fn acquire_slot(&mut self, now_ms: u64) -> (wait_ms: u64)
        requires
            slot(*old(self), now_ms) + MIN_REQUEST_INTERVAL_MS <= u64::MAX,
        ensures
            wait_ms == slot(*old(self), now_ms) - now_ms,
            *final(self) == acquired(*old(self), now_ms),
    {
        let wait = if self.next_allowed_ms > now_ms { self.next_allowed_ms - now_ms } else { 0 };
        let scheduled_at = if wait == 0 { now_ms } else { self.next_allowed_ms };
        self.next_allowed_ms = scheduled_at + MIN_REQUEST_INTERVAL_MS;
        wait
    }

    /// Records a throttled request noticed at `now` (see [`throttled`]).
    pub fn note_throttle(&mut self, now_ms: u64, retry_after_secs: Option<u64>)
        requires
            throttle_fits(now_ms, retry_after_secs),
        ensures
            *final(self) == throttled(*old(self), now_ms, retry_after_secs),
    {
        if self.consecutive_throttles < u32::MAX {
            self.consecutive_throttles = self.consecutive_throttles + 1;
        }
        let wait = match retry_after_secs {
            Some(secs) => secs * 1000,
            None => {
                proof {
                    law_backoff_bounds(self.consecutive_throttles);
                }
                backoff_for(self.consecutive_throttles)
            },
        };
        let target = now_ms + wait;
        if target > self.next_allowed_ms {
            self.next_allowed_ms = target;
        }
    }

    /// Records a successful request: the throttle count starts over.
    pub fn note_success(&mut self)
        ensures
            final(self).consecutive_throttles == 0,
            final(self).next_allowed_ms == old(self).next_allowed_ms,
    {
        self.consecutive_throttles = 0;
    }
}

/// The backoff is never shorter than its base and never longer than its
/// ceiling.
pub proof fn law_backoff_bounds(throttles: u32)
    ensures
        BACKOFF_BASE_MS <= backoff_ms(throttles) <= BACKOFF_MAX_MS,
{
    lemma_doubling_monotone(BACKOFF_BASE_MS as nat, 0, backoff_shift(throttles));
}

/// More consecutive throttles never shorten the backoff.
pub proof fn law_backoff_monotone(t1: u32, t2: u32)
    requires
        t1 <= t2,
    ensures
        backoff_ms(t1) <= backoff_ms(t2),
{
    lemma_doubling_monotone(BACKOFF_BASE_MS as nat, backoff_shift(t1), backoff_shift(t2));
}

/// From the first throttle on, each further throttle doubles the backoff
/// until it reaches the ceiling.
pub proof fn law_backoff_doubles(t: u32)
    requires
        1 <= t < u32::MAX,
    ensures
        backoff_ms((t + 1) as u32) == if 2 * backoff_ms(t) > BACKOFF_MAX_MS {
            BACKOFF_MAX_MS as nat
        } else {
            2 * backoff_ms(t)
        },
{
    let s = backoff_shift(t);
    if s < 6 {
        assert(backoff_shift((t + 1) as u32) == s + 1);
        assert(doubling(BACKOFF_BASE_MS as nat, s + 1) == 2 * doubling(BACKOFF_BASE_MS as nat, s));
        lemma_doubling_at_most_six(s);
        if s < 5 {
            lemma_doubling_monotone(BACKOFF_BASE_MS as nat, s, 4);
            assert(doubling(BACKOFF_BASE_MS as nat, 4) == 80_000) by {
                reveal_with_fuel(doubling, 5);
            }
        } else {
            assert(doubling(BACKOFF_BASE_MS as nat, 5) == 160_000) by {
                reveal_with_fuel(doubling, 6);
            }
        }
    } else {
        assert(backoff_shift((t + 1) as u32) == 6);
        assert(doubling(BACKOFF_BASE_MS as nat, 6) == 320_000) by {
            reveal_with_fuel(doubling, 7);
        }
    }
}

/// Successive bookings are at least one minimum interval apart, whenever
/// the second caller asks: the slot booked after a booking at `t1` is never
/// earlier than `MIN_REQUEST_INTERVAL_MS` past the first slot, nor earlier
/// than its own request.
pub proof fn law_slots_are_spaced(s: RateLimitState, t1: u64, t2: u64)
    requires
        slot(s, t1) + MIN_REQUEST_INTERVAL_MS <= u64::MAX,
    ensures
        slot(acquired(s, t1), t2) >= slot(s, t1) + MIN_REQUEST_INTERVAL_MS,
        slot(acquired(s, t1), t2) >= t2,
        slot(s, t1) >= t1,
{
}

/// Two requests booked one after the other on a ledger go out at least one
/// minimum interval apart: with `wait1` the wait booked at `t1` and `wait2`
/// the wait booked next at `t2`, the send times `t1 + wait1` and
/// `t2 + wait2` differ by at least `MIN_REQUEST_INTERVAL_MS`, and no request
/// goes out before it was asked for.
pub proof fn law_send_times_are_spaced(s: RateLimitState, t1: u64, wait1: nat, t2: u64, wait2: nat)
    requires
        slot(s, t1) + MIN_REQUEST_INTERVAL_MS <= u64::MAX,
        wait1 == slot(s, t1) - t1,
        wait2 == slot(acquired(s, t1), t2) - t2,
    ensures
        t2 + wait2 >= t1 + wait1 + MIN_REQUEST_INTERVAL_MS,
        t1 + wait1 >= t1,
        t2 + wait2 >= t2,
{
    law_slots_are_spaced(s, t1, t2);
}

/// No ledger operation moves the next allowed instant backwards: booking a
/// slot moves it forward, a throttle never pulls it in, and a success leaves
/// it alone.
pub proof fn law_next_allowed_never_decreases(s: RateLimitState, now: u64, retry_after_secs: Option<u64>)
    requires
        slot(s, now) + MIN_REQUEST_INTERVAL_MS <= u64::MAX,
        throttle_fits(now, retry_after_secs),
    ensures
        acquired(s, now).next_allowed_ms > s.next_allowed_ms,
        throttled(s, now, retry_after_secs).next_allowed_ms >= s.next_allowed_ms,
        throttled(s, now, retry_after_secs).next_allowed_ms >= now + throttle_wait_ms(s, retry_after_secs),
{
    if retry_after_secs is None {
        law_backoff_bounds(one_more(s.consecutive_throttles));
    }
}

} // verus!
