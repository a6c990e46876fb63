//! Per-key registries of token buckets.
//!
//! `RateLimiter` is the single-caller registry: it owns its buckets directly.
//! A key seen for the first time gets a bucket built from the registry's
//! default parameters; once created, a key's bucket is never replaced or
//! removed, and operations on one key never touch the bucket of another.

use crate::bucket::{bucket_wf, logical_available, reduce_rel, Bucket, BucketModel};
use crate::keymap::{
    find_key_index, has_key, key_index, lemma_entry_at, lemma_push_entry, lemma_update_entry,
    unique_keys, value_of,
};
use vstd::prelude::*;
use vstd::rwlock::{RwLock, RwLockPredicate};

verus! {

/// Mathematical state of a registry: the three default bucket parameters and
/// the keyed buckets themselves.
pub struct RegistryModel {
    pub capacity: int,
    pub interval: int,
    pub amount: int,
    pub entries: Seq<(Seq<char>, BucketModel)>,
}

/// The bucket a registry builds on the first use of a key: full, with the
/// registry's default parameters, clock at zero.
pub open spec fn fresh_bucket(r: RegistryModel) -> BucketModel {
    BucketModel {
        capacity: r.capacity,
        interval: r.interval,
        amount: r.amount,
        available: r.capacity,
        last_update: 0,
    }
}

/// Well-formedness: positive defaults, at most one bucket per key, and every
/// bucket well-formed and carrying exactly the default parameters.
pub open spec fn registry_wf(r: RegistryModel) -> bool {
    &&& 1 <= r.capacity
    &&& 1 <= r.interval
    &&& 1 <= r.amount
    &&& unique_keys(r.entries)
    &&& forall|i: int|
        0 <= i < r.entries.len() ==> bucket_wf((#[trigger] r.entries[i]).1)
            && r.entries[i].1.capacity == r.capacity && r.entries[i].1.interval == r.interval
            && r.entries[i].1.amount == r.amount
}

pub struct RateLimiter {
    default_max_amount: u64,
    default_refill_time: u64,
    default_refill_amount: u64,
    buckets: Vec<(String, Bucket)>,
}

impl View for RateLimiter {
    type V = RegistryModel;

    closed spec fn view(&self) -> RegistryModel {
        RegistryModel {
            capacity: self.default_max_amount as int,
            interval: self.default_refill_time as int,
            amount: self.default_refill_amount as int,
            entries: self.buckets@.map_values(|p: (String, Bucket)| (p.0@, p.1@)),
        }
    }
}

impl RateLimiter {
    pub open spec fn wf(&self) -> bool {
        registry_wf(self@)
    }

    /// Initialize a registry with the default parameters applied to any key
    /// seen for the first time. Non-positive parameters are a configuration
    /// error and are rejected here, at construction.
    pub fn new(
        default_max_amount: u64,
        default_refill_time: u64,
        default_refill_amount: u64,
    ) -> (r: Self)
        requires
            1 <= default_max_amount,
            1 <= default_refill_time,
            1 <= default_refill_amount,
        ensures
            r.wf(),
            r@.capacity == default_max_amount,
            r@.interval == default_refill_time,
            r@.amount == default_refill_amount,
            r@.entries.len() == 0,
    {
        let r = Self {
            default_max_amount,
            default_refill_time,
            default_refill_amount,
            buckets: Vec::new(),
        };
        proof {
            assert(r@.entries =~= Seq::<(Seq<char>, BucketModel)>::empty());
        }
        r
    }

    /// The available tokens in the bucket for `key` at the current moment, or
    /// `default_max_amount` when the key has never been used: a key with no
    /// history is assumed full. Read-only.
    pub fn get_available_tokens(&self, key: String) -> (r: u64)
        requires
            self.wf(),
        ensures
            0 <= r <= self@.capacity,
            !has_key(self@.entries, key@) ==> r == self@.capacity,
            has_key(self@.entries, key@) ==> exists|now: int|
                value_of(self@.entries, key@).last_update <= now && r == #[trigger]
                logical_available(value_of(self@.entries, key@), now),
    {
        match find_key_index(&self.buckets, &key) {
            Some(i) => {
                proof {
                    lemma_entry_at(self@.entries, key@, i as int);
                }
                self.buckets[i].1.get_available_tokens()
            },
            None => {
                proof {
                    if has_key(self@.entries, key@) {
                        let j = key_index(self@.entries, key@);
                        assert(self.buckets@[j].0@ == key@);
                    }
                }
                self.default_max_amount
            },
        }
    }

    /// Try to consume `reduce_tokens` from the bucket for `key` at the
    /// current moment. The pair returned is `(granted, available_tokens)`; on
    /// denial no tokens were removed. A key not yet present gets a fresh
    /// bucket built from the default parameters, which then serves the call.
    /// Buckets of other keys are untouched.
    pub fn reduce(&mut self, key: String, reduce_tokens: u64) -> (r: (bool, u64))
        requires
            old(self).wf(),
        ensures
            final(self).wf(),
            final(self)@.capacity == old(self)@.capacity,
            final(self)@.interval == old(self)@.interval,
            final(self)@.amount == old(self)@.amount,
            0 <= r.1 <= old(self)@.capacity,
            r.0 ==> r.1 + reduce_tokens <= old(self)@.capacity,
            !r.0 ==> reduce_tokens > r.1,
            has_key(final(self)@.entries, key@),
            has_key(old(self)@.entries, key@) ==> final(self)@.entries.len() == old(
                self,
            )@.entries.len() && exists|now: int|
                value_of(old(self)@.entries, key@).last_update <= now && #[trigger] reduce_rel(
                    value_of(old(self)@.entries, key@),
                    value_of(final(self)@.entries, key@),
                    reduce_tokens as int,
                    now,
                    r.0,
                    r.1 as int,
                ),
            !has_key(old(self)@.entries, key@) ==> final(self)@.entries.len() == old(
                self,
            )@.entries.len() + 1 && exists|now: int|
                0 <= now && #[trigger] reduce_rel(
                    fresh_bucket(old(self)@),
                    value_of(final(self)@.entries, key@),
                    reduce_tokens as int,
                    now,
                    r.0,
                    r.1 as int,
                ),
            forall|k2: Seq<char>|
                k2 != key@ ==> #[trigger] has_key(final(self)@.entries, k2) == has_key(
                    old(self)@.entries,
                    k2,
                ),
            forall|k2: Seq<char>|
                k2 != key@ && has_key(old(self)@.entries, k2) ==> #[trigger] value_of(
                    final(self)@.entries,
                    k2,
                ) == value_of(old(self)@.entries, k2),
    {
        let ghost pre = self@;
        match find_key_index(&self.buckets, &key) {
            Some(i) => {
                proof {
                    lemma_entry_at(pre.entries, key@, i as int);
                }
                let entry = &mut self.buckets[i];
                let r = entry.1.reduce(reduce_tokens);
                proof {
                    assert(self@.entries =~= pre.entries.update(
                        i as int,
                        (key@, self.buckets@[i as int].1@),
                    ));
                    lemma_update_entry(pre.entries, i as int, self.buckets@[i as int].1@);
                }
                r
            },
            None => {
                proof {
                    if has_key(pre.entries, key@) {
                        let j = key_index(pre.entries, key@);
                        assert(self.buckets@[j].0@ == key@);
                    }
                }
                let mut bucket = Bucket::new(
                    self.default_max_amount,
                    self.default_refill_time,
                    self.default_refill_amount,
                );
                let ghost fresh = bucket@;
                let r = bucket.reduce(reduce_tokens);
                let ghost reduced = bucket@;
                self.buckets.push((key, bucket));
                proof {
                    assert(self@.entries =~= pre.entries.push((key@, reduced)));
                    lemma_push_entry(pre.entries, key@, reduced);
                    assert(fresh == fresh_bucket(pre));
                }
                r
            },
        }
    }
}

/// Whether some well-formed bucket with the parameters `(capacity, interval,
/// amount)` answers a request for `tokens`, at some moment at or after its
/// last update, with exactly this grant decision and this remainder. The
/// concurrent registry promises no more of a call's outcome: which bucket
/// state the call found is decided by the interleaving of the callers.
pub open spec fn default_bucket_outcome(
    capacity: int,
    interval: int,
    amount: int,
    tokens: int,
    granted: bool,
    remaining: int,
) -> bool {
    exists|pre: BucketModel, post: BucketModel, now: int|
        {
            &&& bucket_wf(pre)
            &&& pre.capacity == capacity
            &&& pre.interval == interval
            &&& pre.amount == amount
            &&& pre.last_update <= now
            &&& #[trigger] reduce_rel(pre, post, tokens, now, granted, remaining)
        }
}

/// Lock invariant of one shared bucket: well-formed, with exactly the
/// registry's default parameters. Checked whenever a writer releases the
/// bucket's lock.
pub struct BucketPred {
    pub capacity: int,
    pub interval: int,
    pub amount: int,
}

impl RwLockPredicate<Bucket> for BucketPred {
    open spec fn inv(self, b: Bucket) -> bool {
        &&& bucket_wf(b@)
        &&& b@.capacity == self.capacity
        &&& b@.interval == self.interval
        &&& b@.amount == self.amount
    }
}

/// Lock invariant of the shared key-to-bucket table: at most one entry per
/// key, and every entry's bucket lock carries the registry's default
/// parameters as its own invariant. Checked whenever a writer releases the
/// table lock, so every state of the shared table a caller can ever observe
/// has exactly one bucket per key.
pub struct TablePred {
    pub capacity: int,
    pub interval: int,
    pub amount: int,
}

impl RwLockPredicate<Vec<(String, RwLock<Bucket, BucketPred>)>> for TablePred {
    open spec fn inv(self, t: Vec<(String, RwLock<Bucket, BucketPred>)>) -> bool {
        &&& forall|i: int, j: int|
            0 <= i < j < t@.len() ==> (#[trigger] t@[i]).0@ != (#[trigger] t@[j]).0@
        &&& forall|i: int|
            0 <= i < t@.len() ==> (#[trigger] t@[i]).1.pred() == (BucketPred {
                capacity: self.capacity,
                interval: self.interval,
                amount: self.amount,
            })
    }
}

/// The concurrent registry: shareable between threads through `&self`.
///
/// Locking is two-tier. The key-to-bucket table sits behind a reader/writer
/// lock; each bucket sits behind its own lock, so operations on different
/// keys never contend. A `reduce` on a key not yet present takes the
/// exclusive table lock and re-checks for the key before inserting — another
/// caller may have installed the bucket meanwhile — so at most one bucket is
/// ever installed per key, an invariant the table lock itself enforces.
pub struct AtomicRateLimiter {
    default_max_amount: u64,
    default_refill_time: u64,
    default_refill_amount: u64,
    buckets: RwLock<Vec<(String, RwLock<Bucket, BucketPred>)>, TablePred>,
}

impl AtomicRateLimiter {
    /// The default capacity, which is also the capacity of every bucket the
    /// registry ever holds.
    pub closed spec fn spec_capacity(&self) -> int {
        self.default_max_amount as int
    }

    /// The default refill interval of every bucket the registry ever holds.
    pub closed spec fn spec_interval(&self) -> int {
        self.default_refill_time as int
    }

    /// The default refill amount of every bucket the registry ever holds.
    pub closed spec fn spec_amount(&self) -> int {
        self.default_refill_amount as int
    }

    pub closed spec fn wf(&self) -> bool {
        &&& 1 <= self.default_max_amount
        &&& 1 <= self.default_refill_time
        &&& 1 <= self.default_refill_amount
        &&& self.buckets.pred() == (TablePred {
            capacity: self.default_max_amount as int,
            interval: self.default_refill_time as int,
            amount: self.default_refill_amount as int,
        })
    }

    /// Initialize a concurrent registry with the default parameters applied
    /// to any key seen for the first time. Non-positive parameters are a
    /// configuration error and are rejected here, at construction.
    pub fn new(
        default_max_amount: u64,
        default_refill_time: u64,
        default_refill_amount: u64,
    ) -> (r: Self)
        requires
            1 <= default_max_amount,
            1 <= default_refill_time,
            1 <= default_refill_amount,
        ensures
            r.wf(),
            r.spec_capacity() == default_max_amount,
            r.spec_interval() == default_refill_time,
            r.spec_amount() == default_refill_amount,
    {
        let table: Vec<(String, RwLock<Bucket, BucketPred>)> = Vec::new();
        let ghost pred = TablePred {
            capacity: default_max_amount as int,
            interval: default_refill_time as int,
            amount: default_refill_amount as int,
        };
        Self {
            default_max_amount,
            default_refill_time,
            default_refill_amount,
            buckets: RwLock::new(table, Ghost(pred)),
        }
    }

    /// The available tokens in the bucket for `key` at the current moment, or
    /// `default_max_amount` when the key has never been used. Takes only
    /// shared locks: the table's read lock and the bucket's read lock.
    pub fn get_available_tokens(&self, key: String) -> (r: u64)
        requires
            self.wf(),
        ensures
            0 <= r <= self.spec_capacity(),
            r == self.spec_capacity() || exists|b: BucketModel, now: int|
                {
                    &&& bucket_wf(b)
                    &&& b.capacity == self.spec_capacity()
                    &&& b.interval == self.spec_interval()
                    &&& b.amount == self.spec_amount()
                    &&& b.last_update <= now
                    &&& r == #[trigger] logical_available(b, now)
                },
    {
        let read_handle = self.buckets.acquire_read();
        let table = read_handle.borrow();
        let r = match find_key_index(table, &key) {
            Some(i) => {
                let bucket_read = table[i].1.acquire_read();
                let bucket_ref = bucket_read.borrow();
                let tokens = bucket_ref.get_available_tokens();
                proof {
                    let now = choose|now: int|
                        bucket_ref@.last_update <= now && tokens == #[trigger] logical_available(
                            bucket_ref@,
                            now,
                        );
                    assert(tokens == logical_available(bucket_ref@, now));
                }
                bucket_read.release_read();
                tokens
            },
            None => self.default_max_amount,
        };
        read_handle.release_read();
        r
    }

    /// Try to consume `reduce_tokens` from the bucket for `key` at the
    /// current moment. The pair returned is `(granted, available_tokens)`; on
    /// denial no tokens were removed from the bucket that served the call. A
    /// key not yet present gets a fresh bucket built from the default
    /// parameters, installed under the exclusive table lock after re-checking
    /// that no other caller installed one meanwhile.
    pub fn reduce(&self, key: String, reduce_tokens: u64) -> (r: (bool, u64))
        requires
            self.wf(),
        ensures
            0 <= r.1 <= self.spec_capacity(),
            r.0 ==> r.1 + reduce_tokens <= self.spec_capacity(),
            !r.0 ==> reduce_tokens > r.1,
            default_bucket_outcome(
                self.spec_capacity(),
                self.spec_interval(),
                self.spec_amount(),
                reduce_tokens as int,
                r.0,
                r.1 as int,
            ),
    {
        // Optimistic path: the bucket usually exists, so a shared table lock
        // plus the bucket's own exclusive lock suffices.
        let read_handle = self.buckets.acquire_read();
        let table = read_handle.borrow();
        let found = find_key_index(table, &key);
        match found {
            Some(i) => {
                let (mut bucket, bucket_write) = table[i].1.acquire_write();
                let ghost pre = bucket@;
                let r = bucket.reduce(reduce_tokens);
                proof {
                    let now = choose|now: int|
                        pre.last_update <= now && #[trigger] reduce_rel(
                            pre,
                            bucket@,
                            reduce_tokens as int,
                            now,
                            r.0,
                            r.1 as int,
                        );
                    assert(reduce_rel(pre, bucket@, reduce_tokens as int, now, r.0, r.1 as int));
                }
                bucket_write.release_write(bucket);
                read_handle.release_read();
                return r;
            },
            None => {},
        }
        read_handle.release_read();
        // First use of the key: take the exclusive table lock and re-check —
        // another caller may have installed the bucket between the two locks.
        let (mut table, write_handle) = self.buckets.acquire_write();
        match find_key_index(&table, &key) {
            Some(i) => {
                let (mut bucket, bucket_write) = table[i].1.acquire_write();
                let ghost pre = bucket@;
                let r = bucket.reduce(reduce_tokens);
                proof {
                    let now = choose|now: int|
                        pre.last_update <= now && #[trigger] reduce_rel(
                            pre,
                            bucket@,
                            reduce_tokens as int,
                            now,
                            r.0,
                            r.1 as int,
                        );
                    assert(reduce_rel(pre, bucket@, reduce_tokens as int, now, r.0, r.1 as int));
                }
                bucket_write.release_write(bucket);
                write_handle.release_write(table);
                r
            },
            None => {
                let mut bucket = Bucket::new(
                    self.default_max_amount,
                    self.default_refill_time,
                    self.default_refill_amount,
                );
                let ghost pre = bucket@;
                let r = bucket.reduce(reduce_tokens);
                proof {
                    let now = choose|now: int|
                        pre.last_update <= now && #[trigger] reduce_rel(
                            pre,
                            bucket@,
                            reduce_tokens as int,
                            now,
                            r.0,
                            r.1 as int,
                        );
                    assert(reduce_rel(pre, bucket@, reduce_tokens as int, now, r.0, r.1 as int));
                }
                let ghost pre_table = table@;
                let bucket_lock = RwLock::new(
                    bucket,
                    Ghost(
                        BucketPred {
                            capacity: self.default_max_amount as int,
                            interval: self.default_refill_time as int,
                            amount: self.default_refill_amount as int,
                        },
                    ),
                );
                table.push((key, bucket_lock));
                proof {
                    assert forall|a: int, b: int| 0 <= a < b < table@.len() implies (
                    #[trigger] table@[a]).0@ != (#[trigger] table@[b]).0@ by {
                        if b < pre_table.len() {
                            assert(table@[a] == pre_table[a]);
                            assert(table@[b] == pre_table[b]);
                        } else {
                            assert(table@[b].0@ == key@);
                            assert(table@[a] == pre_table[a]);
                        }
                    }
                }
                write_handle.release_write(table);
                r
            },
        }
    }
}

} // verus!
