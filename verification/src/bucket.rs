//! A token bucket with lazy refill.
//!
//! The bucket holds up to `capacity` tokens. Every `interval` whole seconds
//! it earns `amount` fresh tokens, computed on demand from the elapsed time
//! (floor division, so partial intervals never award tokens). Time is
//! measured in whole seconds since the bucket's creation; the methods with a
//! `now` parameter are deterministic and fully specified, and the methods
//! without one read the monotonic clock and satisfy the same contracts for
//! some reading of it.

use crate::clock;
use vstd::arithmetic::div_mod::{
    lemma_div_by_multiple, lemma_div_is_ordered, lemma_div_pos_is_pos,
    lemma_fundamental_div_mod, lemma_fundamental_div_mod_converse,
};
use vstd::arithmetic::mul::{
    lemma_mul_inequality, lemma_mul_is_distributive_sub, lemma_mul_nonnegative,
};
use vstd::prelude::*;

verus! {

/// The smaller of two integers.
pub open spec fn min_int(a: int, b: int) -> int {
    if a <= b {
        a
    } else {
        b
    }
}

/// Mathematical state of one bucket: its three fixed parameters, the cached
/// token count, and the moment (in seconds since the bucket's creation) at
/// which that cache was last authoritative.
pub struct BucketModel {
    pub capacity: int,
    pub interval: int,
    pub amount: int,
    pub available: int,
    pub last_update: int,
}

/// Well-formedness: positive parameters, cached count within `[0, capacity]`,
/// and a non-negative clock.
pub open spec fn bucket_wf(m: BucketModel) -> bool {
    &&& 1 <= m.capacity
    &&& 1 <= m.interval
    &&& 1 <= m.amount
    &&& 0 <= m.available <= m.capacity
    &&& 0 <= m.last_update
}

/// Tokens earned between `m.last_update` and `now`: one batch of `m.amount`
/// per whole elapsed `m.interval`, partial intervals awarding nothing.
pub open spec fn refill_due(m: BucketModel, now: int) -> int {
    ((now - m.last_update) / m.interval) * m.amount
}

/// The tokens logically available at `now`: the cached count plus the refill
/// due, capped at the capacity.
pub open spec fn logical_available(m: BucketModel, now: int) -> int {
    min_int(m.capacity, m.available + refill_due(m, now))
}

/// Whether a request for `tokens` at `now` is granted.
pub open spec fn spec_granted(m: BucketModel, tokens: int, now: int) -> bool {
    tokens <= logical_available(m, now)
}

/// The bucket after `reduce(tokens)` at `now`: a grant consumes the tokens
/// and re-anchors the clock; a denial leaves the bucket untouched.
pub open spec fn after_reduce(m: BucketModel, tokens: int, now: int) -> BucketModel {
    if spec_granted(m, tokens, now) {
        BucketModel {
            available: logical_available(m, now) - tokens,
            last_update: now,
            ..m
        }
    } else {
        m
    }
}

/// Full description of one `reduce` call: the grant decision, the reported
/// remainder, and the state after.
pub open spec fn reduce_rel(
    pre: BucketModel,
    post: BucketModel,
    tokens: int,
    now: int,
    granted: bool,
    remaining: int,
) -> bool {
    &&& granted == spec_granted(pre, tokens, now)
    &&& remaining == logical_available(pre, now) - if granted {
        tokens
    } else {
        0
    }
    &&& post == after_reduce(pre, tokens, now)
}

pub struct Bucket {
    max_amount: u64,
    refill_time: u64,
    refill_amount: u64,
    available_tokens: u64,
    last_updated: u64,
    created: std::time::Instant,
}

impl View for Bucket {
    type V = BucketModel;

    closed spec fn view(&self) -> BucketModel {
        BucketModel {
            capacity: self.max_amount as int,
            interval: self.refill_time as int,
            amount: self.refill_amount as int,
            available: self.available_tokens as int,
            last_update: self.last_updated as int,
        }
    }
}

impl Bucket {
    pub open spec fn wf(&self) -> bool {
        bucket_wf(self@)
    }

    /// Initialize a new full bucket. Non-positive parameters are a
    /// configuration error and are rejected here, at construction.
    pub fn new(max_amount: u64, refill_time: u64, refill_amount: u64) -> (b: Bucket)
        requires
            1 <= max_amount,
            1 <= refill_time,
            1 <= refill_amount,
        ensures
            b.wf(),
            b@ == (BucketModel {
                capacity: max_amount as int,
                interval: refill_time as int,
                amount: refill_amount as int,
                available: max_amount as int,
                last_update: 0,
            }),
    {
        Bucket {
            max_amount,
            refill_time,
            refill_amount,
            available_tokens: max_amount,
            last_updated: 0,
            created: std::time::Instant::now(),
        }
    }

    /// A reading of the bucket's clock, clamped so that it never runs behind
    /// the bucket's own last update.
    fn now_secs(&self) -> (now: u64)
        ensures
            self@.last_update <= now,
    {
        let elapsed = self.created.elapsed().as_secs();
        if elapsed < self.last_updated {
            self.last_updated
        } else {
            elapsed
        }
    }

    /// Reset the bucket to full at moment `now`, discarding any pending
    /// refill progress.
    pub fn reset_at(&mut self, now: u64)
        requires
            old(self).wf(),
        ensures
            final(self).wf(),
            final(self)@ == (BucketModel {
                available: old(self)@.capacity,
                last_update: now as int,
                ..old(self)@
            }),
    {
        self.available_tokens = self.max_amount;
        self.last_updated = now;
    }

    /// Reset the bucket to full at the current moment.
    pub fn reset(&mut self)
        requires
            old(self).wf(),
        ensures
            final(self).wf(),
            final(self)@.available == old(self)@.capacity,
            final(self)@.capacity == old(self)@.capacity,
            final(self)@.interval == old(self)@.interval,
            final(self)@.amount == old(self)@.amount,
            old(self)@.last_update <= final(self)@.last_update,
    {
        let now = self.now_secs();
        self.reset_at(now);
    }

    /// Tokens earned since the last update, as of moment `now`: one batch of
    /// `refill_amount` per whole elapsed `refill_interval`, a partial interval
    /// awarding nothing. Read-only. The result must fit the machine word; the
    /// available-token computations below avoid that bound by capping early.
    pub fn get_refill_tokens_at(&self, now: u64) -> (r: u64)
        requires
            self.wf(),
            self@.last_update <= now,
            refill_due(self@, now as int) <= u64::MAX,
        ensures
            r == refill_due(self@, now as int),
    {
        let intervals: u64 = (now - self.last_updated) / self.refill_time;
        intervals * self.refill_amount
    }

    /// Tokens earned since the last update, as of moment `now`, capped at the
    /// capacity so the computation cannot overflow. The cap never changes an
    /// available-token computation, because the available count is itself
    /// capped at the capacity.
    fn refill_tokens_capped_at(&self, now: u64) -> (r: u64)
        requires
            self.wf(),
            self@.last_update <= now,
        ensures
            r == min_int(refill_due(self@, now as int), self@.capacity),
    {
        let intervals: u64 = (now - self.last_updated) / self.refill_time;
        if intervals > self.max_amount / self.refill_amount {
            proof {
                let c = self@.capacity;
                let a = self@.amount;
                lemma_fundamental_div_mod(c, a);
                lemma_mul_inequality(c / a + 1, intervals as int, a);
                assert((c / a + 1) * a == (c / a) * a + a) by (nonlinear_arith);
                assert((c / a) * a == a * (c / a)) by (nonlinear_arith);
                assert(refill_due(self@, now as int) > c);
            }
            self.max_amount
        } else {
            proof {
                let c = self@.capacity;
                let a = self@.amount;
                lemma_mul_inequality(intervals as int, c / a, a);
                lemma_fundamental_div_mod(c, a);
                assert((c / a) * a == a * (c / a)) by (nonlinear_arith);
                assert((c / a) * a <= c);
            }
            intervals * self.refill_amount
        }
    }

    /// The tokens logically available at moment `now`. Read-only: repeated
    /// observations do not advance the refill clock.
    pub fn get_available_tokens_at(&self, now: u64) -> (r: u64)
        requires
            self.wf(),
            self@.last_update <= now,
        ensures
            r == logical_available(self@, now as int),
            0 <= r <= self@.capacity,
    {
        let refill = self.refill_tokens_capped_at(now);
        if refill >= self.max_amount - self.available_tokens {
            self.max_amount
        } else {
            self.available_tokens + refill
        }
    }

    /// The tokens logically available at the current moment.
    pub fn get_available_tokens(&self) -> (r: u64)
        requires
            self.wf(),
        ensures
            0 <= r <= self@.capacity,
            exists|now: int|
                self@.last_update <= now && r == #[trigger] logical_available(self@, now),
    {
        let now = self.now_secs();
        let r = self.get_available_tokens_at(now);
        proof {
            assert(r == logical_available(self@, now as int));
        }
        r
    }

    /// Try to consume `tokens` at moment `now`. Returns the grant decision
    /// and the tokens left. A grant subtracts the tokens and re-anchors the
    /// refill clock to `now`; a denial mutates nothing at all.
    pub fn reduce_at(&mut self, tokens: u64, now: u64) -> (r: (bool, u64))
        requires
            old(self).wf(),
            old(self)@.last_update <= now,
        ensures
            final(self).wf(),
            reduce_rel(old(self)@, final(self)@, tokens as int, now as int, r.0, r.1 as int),
    {
        let available = self.get_available_tokens_at(now);
        if tokens > available {
            (false, available)
        } else {
            self.available_tokens = available - tokens;
            self.last_updated = now;
            (true, self.available_tokens)
        }
    }

    /// Try to consume `tokens` at the current moment. The pair returned is
    /// `(granted, available_tokens)`; on denial no tokens were removed.
    pub fn reduce(&mut self, tokens: u64) -> (r: (bool, u64))
        requires
            old(self).wf(),
        ensures
            final(self).wf(),
            final(self)@.capacity == old(self)@.capacity,
            final(self)@.interval == old(self)@.interval,
            final(self)@.amount == old(self)@.amount,
            0 <= r.1 <= old(self)@.capacity,
            r.0 ==> r.1 + tokens <= old(self)@.capacity,
            !r.0 ==> tokens > r.1,
            exists|now: int|
                old(self)@.last_update <= now && #[trigger] reduce_rel(
                    old(self)@,
                    final(self)@,
                    tokens as int,
                    now,
                    r.0,
                    r.1 as int,
                ),
    {
        let now = self.now_secs();
        let ghost pre = self@;
        let r = self.reduce_at(tokens, now);
        proof {
            assert(reduce_rel(pre, self@, tokens as int, now as int, r.0, r.1 as int));
        }
        r
    }
}

/// Law: at any moment at or after the last update of a well-formed bucket,
/// the logically available tokens lie in `[0, capacity]`.
pub proof fn lemma_available_tokens_in_range(m: BucketModel, now: int)
    requires
        bucket_wf(m),
        m.last_update <= now,
    ensures
        0 <= logical_available(m, now) <= m.capacity,
{
    lemma_div_pos_is_pos(now - m.last_update, m.interval);
    lemma_mul_nonnegative((now - m.last_update) / m.interval, m.amount);
}

/// Law: a denied reduction leaves the bucket exactly as it was, so any later
/// observation sees the very tokens it would have seen had the denied call
/// never happened.
pub proof fn lemma_denial_preserves_tokens(m: BucketModel, tokens: int, now: int, later: int)
    requires
        bucket_wf(m),
        m.last_update <= now,
        !spec_granted(m, tokens, now),
    ensures
        after_reduce(m, tokens, now) == m,
        logical_available(after_reduce(m, tokens, now), later) == logical_available(m, later),
{
}

/// Law: with no consumption, the available tokens are non-decreasing over
/// time and never exceed the capacity.
pub proof fn lemma_monotonic_refill(m: BucketModel, now1: int, now2: int)
    requires
        bucket_wf(m),
        m.last_update <= now1 <= now2,
    ensures
        logical_available(m, now1) <= logical_available(m, now2),
        logical_available(m, now2) <= m.capacity,
{
    lemma_div_is_ordered(now1 - m.last_update, now2 - m.last_update, m.interval);
    lemma_mul_inequality(
        (now1 - m.last_update) / m.interval,
        (now2 - m.last_update) / m.interval,
        m.amount,
    );
}

/// Law: refill respects floor division. Starting from a drained bucket,
/// after exactly `k` whole intervals the available tokens are
/// `min(capacity, k * amount)`, and one second earlier they are strictly
/// fewer — provided the bucket was not already full one second earlier,
/// that is, `(k - 1) * amount < capacity`.
pub proof fn lemma_floor_division_refill(m: BucketModel, k: int)
    requires
        bucket_wf(m),
        m.available == 0,
        1 <= k,
    ensures
        logical_available(m, m.last_update + k * m.interval) == min_int(m.capacity, k * m.amount),
        (k - 1) * m.amount < m.capacity ==> logical_available(
            m,
            m.last_update + k * m.interval - 1,
        ) < min_int(m.capacity, k * m.amount),
{
    lemma_mul_nonnegative(k, m.interval);
    lemma_div_by_multiple(k, m.interval);
    assert(k * m.interval - 1 == (k - 1) * m.interval + (m.interval - 1)) by (nonlinear_arith);
    lemma_fundamental_div_mod_converse(k * m.interval - 1, m.interval, k - 1, m.interval - 1);
    lemma_mul_is_distributive_sub(m.amount, k, 1);
    assert((k - 1) * m.amount == k * m.amount - m.amount) by (nonlinear_arith);
}

} // verus!
