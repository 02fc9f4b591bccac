//! A single rate-limit bucket: a token counter per scope key with lazy,
//! time-based refill.
//!
//! Each bucket has a capacity, a refill interval and an overflow policy.
//! The token count of a scope key is recomputed lazily on access as
//! `min(capacity, tokens_remaining + elapsed / refill_interval)`; a
//! successful admit takes one token, a revert gives one back. Under the
//! `Reject` policy an exhausted key is denied immediately with the time
//! until the next token; under `WaitBounded(n)` up to `n` callers may
//! wait one refill interval for a token before they too are denied.

use vstd::arithmetic::div_mod::{
    lemma_basic_div, lemma_div_is_ordered, lemma_div_pos_is_pos, lemma_fundamental_div_mod,
    lemma_mod_division_less_than_divisor,
};
use vstd::math::min;
use vstd::prelude::*;

verus! {

/// Ticks (here: seconds) never exceed this bound, so that sums of two
/// time values always fit in a `u64`.
pub const MAX_TICK: u64 = 0x4000_0000_0000_0000;

/// What identity a bucket tracks its tokens against.
#[derive(Clone, Copy, PartialEq, Eq, Structural, Debug)]
pub enum Scope {
    /// One shared counter for everybody.
    Global,
    /// One counter per author id.
    PerUser,
    /// One counter per channel id.
    PerChannel,
    /// One counter per guild id.
    PerGuild,
}

/// The concrete identity a token count is tracked against.
#[derive(Clone, Copy, PartialEq, Eq, Structural, Debug)]
pub enum ScopeKey {
    /// The single key of a [`Scope::Global`] bucket.
    All,
    /// A user id.
    User(u64),
    /// A channel id.
    Channel(u64),
    /// A guild id.
    Guild(u64),
}

/// What happens to a caller when no token remains.
#[derive(Clone, Copy, PartialEq, Eq, Structural, Debug)]
pub enum OverflowPolicy {
    /// Deny immediately.
    Reject,
    /// Let up to this many callers wait one refill interval for a
    /// token; any caller beyond that is denied immediately.
    WaitBounded(u64),
}

/// Per-scope-key token accounting state.
#[derive(Clone, Copy, PartialEq, Eq, Structural, Debug)]
pub struct TokenState {
    /// Tokens still available, before time-based accrual since
    /// `refilled_at`.
    pub tokens_remaining: u64,
    /// The instant up to which accrual has been accounted for.
    pub refilled_at: u64,
    /// Denials since the last successful admit, for the one-time
    /// throttling notice.
    pub denial_streak: u64,
}

/// The answer to one admission attempt.
#[derive(Clone, Copy, PartialEq, Eq, Structural, Debug)]
pub enum AdmitResult {
    /// A token was taken; the caller may proceed.
    Allowed,
    /// No token, and the caller may not wait.
    Denied {
        /// Seconds until the next token accrues.
        retry_after: u64,
        /// Whether this is the first denial since the key last admitted
        /// a caller: the moment for the one user-visible notice.
        first_try: bool,
        /// Whether the bucket asks for its delay action to be run.
        delay_action: bool,
    },
    /// No token, but the caller holds a waiter slot: it may retry with
    /// [`Bucket::finish_wait`] once `ready_at` has passed.
    WaitUntil {
        /// The instant the next token accrues.
        ready_at: u64,
    },
}

/// A named rate limiter: one token counter per scope key.
pub struct Bucket {
    /// Which identity the counters are keyed by.
    pub scope: Scope,
    /// Most tokens a key can hold; at least 1.
    pub capacity: u64,
    /// Ticks between two token accruals; at least 1.
    pub refill_interval: u64,
    /// What happens to callers when a key is exhausted.
    pub overflow_policy: OverflowPolicy,
    /// Whether a denial should trigger the configured delay action.
    pub delay_action: bool,
    /// Callers currently holding a waiter slot.
    pub waiters: u64,
    /// Key/state pairs; keys are pairwise distinct.
    pub entries: Vec<(ScopeKey, TokenState)>,
}

/// Where `key`'s accrual stamp stands once brought up to instant `now`:
/// the old stamp advanced by every whole interval that has elapsed (a
/// key never seen starts at `now`).
pub open spec fn stamp_after(pre: Bucket, key: ScopeKey, now: u64) -> int {
    match pre.entry_of(key) {
        None => now as int,
        Some(st) => st.refilled_at + accrued(st, now, pre.refill_interval) * pre.refill_interval,
    }
}

/// How a successful admission relates the bucket before (`pre`) and
/// after (`post`): `key` had a token at `now` and lost exactly one, its
/// denial streak is cleared, and no other key's state changed.
pub open spec fn admit_allowed(pre: Bucket, post: Bucket, key: ScopeKey, now: u64) -> bool {
    &&& pre.tokens_at(key, now) >= 1
    &&& post.tokens_at(key, now) == pre.tokens_at(key, now) - 1
    &&& post.entry_of(key) matches Some(st) && st.tokens_remaining == pre.tokens_at(key, now) - 1
        && st.refilled_at == stamp_after(pre, key, now) && accrued(st, now, post.refill_interval)
        == 0 && st.denial_streak == 0
    &&& forall|k: ScopeKey| k != key ==> post.entry_of(k) == pre.entry_of(k)
    &&& post.same_config(pre)
}

/// How a failed admission (denial or wait) relates the bucket before
/// and after: `key` had no token at `now` and still has none, and no
/// other key's state changed.
pub open spec fn admit_blocked(pre: Bucket, post: Bucket, key: ScopeKey, now: u64) -> bool {
    &&& pre.tokens_at(key, now) == 0
    &&& post.tokens_at(key, now) == 0
    &&& forall|k: ScopeKey| k != key ==> post.entry_of(k) == pre.entry_of(k)
    &&& post.same_config(pre)
}

/// How a revert relates the bucket before and after: `key` got exactly
/// one token back, capped at capacity (a key never seen stays unseen:
/// it is already full), and nothing else changed.
pub open spec fn revert_step(pre: Bucket, post: Bucket, key: ScopeKey) -> bool {
    &&& match pre.entry_of(key) {
        None => post.entry_of(key) is None,
        Some(st) => post.entry_of(key) == Some(
            TokenState {
                tokens_remaining: min(pre.capacity as int, st.tokens_remaining + 1) as u64,
                refilled_at: st.refilled_at,
                denial_streak: st.denial_streak,
            },
        ),
    }
    &&& forall|k: ScopeKey| k != key ==> post.entry_of(k) == pre.entry_of(k)
    &&& post.waiters == pre.waiters
    &&& post.same_config(pre)
}

/// Everything a waiter's retry promises: the waiter slot is freed, the
/// caller is never asked to wait again, and otherwise the attempt is
/// decided and accounted for like any other.
pub open spec fn finish_wait_outcome(
    pre: Bucket,
    post: Bucket,
    key: ScopeKey,
    now: u64,
    r: AdmitResult,
) -> bool {
    &&& post.same_config(pre)
    &&& post.waiters == pre.waiters - 1
    &&& !(r is WaitUntil)
    &&& ((r is Allowed) <==> pre.tokens_at(key, now) >= 1)
    &&& r is Allowed ==> admit_allowed(pre, post, key, now) && post.streak_of(key) == 0
    &&& r matches AdmitResult::Denied { retry_after, first_try, delay_action } ==> admit_blocked(
        pre,
        post,
        key,
        now,
    ) && retry_after == stamp_after(pre, key, now) + pre.refill_interval - now && retry_after >= 1
        && first_try == (pre.streak_of(key) == 0) && delay_action == pre.delay_action
        && post.streak_of(key) == (if pre.streak_of(key) == u64::MAX {
        u64::MAX as int
    } else {
        pre.streak_of(key) + 1
    })
}

/// Everything one admission attempt promises: how the outcome `r` is
/// decided by the tokens available to `key` at `now` and the overflow
/// policy, and how the bucket moved from `pre` to `post`.
pub open spec fn admit_outcome(
    pre: Bucket,
    post: Bucket,
    key: ScopeKey,
    now: u64,
    r: AdmitResult,
) -> bool {
    &&& post.same_config(pre)
    &&& ((r is Allowed) <==> pre.tokens_at(key, now) >= 1)
    &&& ((r is WaitUntil) <==> (pre.tokens_at(key, now) == 0 && match pre.overflow_policy {
        OverflowPolicy::WaitBounded(n) => pre.waiters < n,
        OverflowPolicy::Reject => false,
    }))
    &&& r is Allowed ==> admit_allowed(pre, post, key, now) && post.waiters == pre.waiters
        && post.streak_of(key) == 0
    &&& r matches AdmitResult::WaitUntil { ready_at } ==> admit_blocked(pre, post, key, now)
        && post.waiters == pre.waiters + 1 && ready_at == stamp_after(pre, key, now)
        + pre.refill_interval && now < ready_at && post.streak_of(key) == pre.streak_of(key)
    &&& r matches AdmitResult::Denied { retry_after, first_try, delay_action } ==> admit_blocked(
        pre,
        post,
        key,
        now,
    ) && post.waiters == pre.waiters && retry_after == stamp_after(pre, key, now)
        + pre.refill_interval - now && retry_after >= 1 && first_try == (pre.streak_of(key) == 0)
        && delay_action == pre.delay_action && post.streak_of(key) == (if pre.streak_of(key)
        == u64::MAX {
        u64::MAX as int
    } else {
        pre.streak_of(key) + 1
    })
}

/// The state stored for `key` in the association list `s` (the first
/// pair with that key), or `None`.
pub open spec fn entry_in(s: Seq<(ScopeKey, TokenState)>, key: ScopeKey) -> Option<TokenState>
    decreases s.len(),
{
    if s.len() == 0 {
        None
    } else if s[0].0 == key {
        Some(s[0].1)
    } else {
        entry_in(s.skip(1), key)
    }
}

/// Tokens accrued for a stored state by instant `now`:
/// `elapsed / interval`, where accrual before `refilled_at` is already
/// folded into `tokens_remaining`.
pub open spec fn accrued(st: TokenState, now: u64, interval: u64) -> int {
    if now > st.refilled_at {
        (now - st.refilled_at) / (interval as int)
    } else {
        0
    }
}

impl Bucket {
    /// Configuration is sane, time values are bounded, keys are
    /// pairwise distinct and every stored count is within capacity.
    pub open spec fn wf(self) -> bool {
        &&& self.capacity >= 1
        &&& 1 <= self.refill_interval <= MAX_TICK
        &&& forall|i: int, j: int|
            0 <= i < j < self.entries@.len() ==> self.entries@[i].0 != self.entries@[j].0
        &&& forall|i: int|
            0 <= i < self.entries@.len() ==> (#[trigger] self.entries@[i]).1.tokens_remaining
                <= self.capacity && self.entries@[i].1.refilled_at <= MAX_TICK
    }

    /// The stored accounting state for `key`, if any.
    pub open spec fn entry_of(self, key: ScopeKey) -> Option<TokenState> {
        entry_in(self.entries@, key)
    }

    /// The tokens available to `key` at instant `now`: a key never seen
    /// starts full; a stored key gets its lazy, capped refill.
    pub open spec fn tokens_at(self, key: ScopeKey, now: u64) -> int {
        match self.entry_of(key) {
            None => self.capacity as int,
            Some(st) => min(
                self.capacity as int,
                st.tokens_remaining + accrued(st, now, self.refill_interval),
            ),
        }
    }

    /// Denials `key` has seen since it last admitted a caller.
    pub open spec fn streak_of(self, key: ScopeKey) -> int {
        match self.entry_of(key) {
            None => 0,
            Some(st) => st.denial_streak as int,
        }
    }

    /// The two buckets are configured alike (only accounting state may
    /// differ).
    pub open spec fn same_config(self, other: Bucket) -> bool {
        &&& self.scope == other.scope
        &&& self.capacity == other.capacity
        &&& self.refill_interval == other.refill_interval
        &&& self.overflow_policy == other.overflow_policy
        &&& self.delay_action == other.delay_action
    }

    /// A fresh bucket with no accounting state.
    pub fn new(
        scope: Scope,
        capacity: u64,
        refill_interval: u64,
        overflow_policy: OverflowPolicy,
        delay_action: bool,
    ) -> (b: Bucket)
        requires
            capacity >= 1,
            1 <= refill_interval <= MAX_TICK,
        ensures
            b.wf(),
            b.scope == scope,
            b.capacity == capacity,
            b.refill_interval == refill_interval,
            b.overflow_policy == overflow_policy,
            b.delay_action == delay_action,
            b.waiters == 0,
            forall|key: ScopeKey, now: u64| b.tokens_at(key, now) == capacity,
            forall|key: ScopeKey| b.streak_of(key) == 0,
    {
        Bucket {
            scope,
            capacity,
            refill_interval,
            overflow_policy,
            delay_action,
            waiters: 0,
            entries: Vec::new(),
        }
    }

    /// Index of the stored entry for `key`, if any.
    fn find_entry(&self, key: ScopeKey) -> (r: Option<usize>)
        ensures
            match r {
                Some(i) => i < self.entries@.len() && self.entries@[i as int].0 == key
                    && self.entry_of(key) == Some(self.entries@[i as int].1) && forall|j: int|
                    0 <= j < i ==> self.entries@[j].0 != key,
                None => self.entry_of(key) is None && forall|j: int|
                    0 <= j < self.entries@.len() ==> self.entries@[j].0 != key,
            },
    {
        let mut i: usize = 0;
        while i < self.entries.len()
            invariant
                i <= self.entries@.len(),
                forall|j: int| 0 <= j < i ==> self.entries@[j].0 != key,
            decreases self.entries@.len() - i,
        {
            if self.entries[i].0 == key {
                proof {
                    lemma_entry_in_first_match(self.entries@, key, i as int);
                }
                return Some(i);
            }
            i = i + 1;
        }
        proof {
            lemma_entry_in_absent(self.entries@, key);
        }
        None
    }

    /// Brings `key`'s stored state up to date with instant `now`
    /// (creating a full entry for a key never seen) and returns its
    /// index. Observably this changes nothing: the token count of every
    /// key at `now` stays what it was; it only folds the accrual since
    /// `refilled_at` into `tokens_remaining`.
    fn touch(&mut self, key: ScopeKey, now: u64) -> (idx: usize)
        requires
            old(self).wf(),
            now <= MAX_TICK,
        ensures
            final(self).wf(),
            final(self).same_config(*old(self)),
            final(self).waiters == old(self).waiters,
            idx < final(self).entries@.len(),
            final(self).entries@[idx as int].0 == key,
            final(self).entry_of(key) == Some(final(self).entries@[idx as int].1),
            final(self).entries@[idx as int].1.tokens_remaining == old(self).tokens_at(key, now),
            final(self).entries@[idx as int].1.refilled_at == stamp_after(*old(self), key, now),
            accrued(final(self).entries@[idx as int].1, now, final(self).refill_interval) == 0,
            now < final(self).entries@[idx as int].1.refilled_at + final(self).refill_interval,
            final(self).entries@[idx as int].1.denial_streak == old(self).streak_of(key),
            forall|k: ScopeKey| k != key ==> final(self).entry_of(k) == old(self).entry_of(k),
            final(self).tokens_at(key, now) == old(self).tokens_at(key, now),
            forall|j: int|
                0 <= j < final(self).entries@.len() && j != idx ==> final(self).entries@[j]
                    == old(self).entries@[j],
    {
        let ghost s0 = self.entries@;
        match self.find_entry(key) {
            None => {
                let st = TokenState {
                    tokens_remaining: self.capacity,
                    refilled_at: now,
                    denial_streak: 0,
                };
                self.entries.push((key, st));
                let idx = self.entries.len() - 1;
                proof {
                    lemma_entry_in_first_match(self.entries@, key, idx as int);
                    assert forall|k: ScopeKey| k != key implies self.entry_of(k) == entry_in(
                        s0,
                        k,
                    ) by {
                        lemma_entry_in_push_other(s0, (key, st), k);
                    }
                    assert(self.tokens_at(key, now) == self.capacity);
                }
                idx
            },
            Some(i) => {
                let st = self.entries[i].1;
                if now > st.refilled_at {
                    let elapsed = now - st.refilled_at;
                    let interval = self.refill_interval;
                    let g = elapsed / interval;
                    proof {
                        lemma_fundamental_div_mod(elapsed as int, interval as int);
                        lemma_mod_division_less_than_divisor(elapsed as int, interval as int);
                        lemma_div_pos_is_pos(elapsed as int, interval as int);
                        assert(elapsed as int == interval as int * (elapsed as int
                            / interval as int) + elapsed as int % interval as int);
                        assert(g * interval as int == interval as int * g) by (nonlinear_arith);
                        assert(g * interval as int == elapsed - elapsed as int % interval as int);
                    }
                    let advance = g * interval;
                    let new_r = st.refilled_at + advance;
                    let new_t = if g >= self.capacity - st.tokens_remaining {
                        self.capacity
                    } else {
                        st.tokens_remaining + g
                    };
                    let new_st = TokenState {
                        tokens_remaining: new_t,
                        refilled_at: new_r,
                        denial_streak: st.denial_streak,
                    };
                    self.entries.set(i, (key, new_st));
                    proof {
                        lemma_entry_in_first_match(s0, key, i as int);
                        lemma_entry_in_first_match(self.entries@, key, i as int);
                        assert forall|k: ScopeKey| k != key implies self.entry_of(k) == entry_in(
                            s0,
                            k,
                        ) by {
                            lemma_entry_in_update_other(s0, i as int, (key, new_st), k);
                        }
                        // accrual at the advanced stamp is the remainder,
                        // which is below the interval, so nothing more
                        // accrues at `now`.
                        assert(now - new_r == elapsed as int % interval as int);
                        if now > new_r {
                            lemma_basic_div((now - new_r) as int, interval as int);
                        }
                        assert(accrued(new_st, now, interval) == 0);
                        assert(new_t == min(
                            self.capacity as int,
                            st.tokens_remaining + accrued(st, now, interval),
                        ));
                    }
                    i
                } else {
                    proof {
                        lemma_entry_in_first_match(s0, key, i as int);
                        assert(accrued(st, now, self.refill_interval) == 0);
                        assert(self.entries@[i as int].1.tokens_remaining == min(
                            self.capacity as int,
                            st.tokens_remaining + 0,
                        ));
                    }
                    i
                }
            },
        }
    }

    /// One admission attempt for `key` at instant `now`.
    ///
    /// With a token available the attempt is allowed and takes exactly
    /// one token. With none, the overflow policy decides: a caller that
    /// may wait gets a waiter slot and the instant the next token
    /// accrues; any other caller is denied with the exact time until
    /// that instant, and is told whether this denial is the key's first
    /// since it last admitted (the moment for the one user-visible
    /// throttling notice).
    pub fn try_admit(&mut self, key: ScopeKey, now: u64) -> (r: AdmitResult)
        requires
            old(self).wf(),
            now <= MAX_TICK,
        ensures
            final(self).wf(),
            admit_outcome(*old(self), *final(self), key, now, r),
    {
        let idx = self.touch(key, now);
        let st = self.entries[idx].1;
        if st.tokens_remaining >= 1 {
            let ghost s1 = self.entries@;
            let taken = TokenState {
                tokens_remaining: st.tokens_remaining - 1,
                refilled_at: st.refilled_at,
                denial_streak: 0,
            };
            self.entries.set(idx, (key, taken));
            proof {
                lemma_entry_in_first_match(self.entries@, key, idx as int);
                assert forall|k: ScopeKey| k != key implies self.entry_of(k) == entry_in(
                    s1,
                    k,
                ) by {
                    lemma_entry_in_update_other(s1, idx as int, (key, taken), k);
                }
            }
            AdmitResult::Allowed
        } else {
            let ready = st.refilled_at + self.refill_interval;
            let can_wait = match self.overflow_policy {
                OverflowPolicy::WaitBounded(n) => self.waiters < n,
                OverflowPolicy::Reject => false,
            };
            if can_wait {
                self.waiters = self.waiters + 1;
                AdmitResult::WaitUntil { ready_at: ready }
            } else {
                let ghost s1 = self.entries@;
                let first = st.denial_streak == 0;
                let new_streak = if st.denial_streak == u64::MAX {
                    u64::MAX
                } else {
                    st.denial_streak + 1
                };
                let denied = TokenState {
                    tokens_remaining: 0,
                    refilled_at: st.refilled_at,
                    denial_streak: new_streak,
                };
                self.entries.set(idx, (key, denied));
                proof {
                    lemma_entry_in_first_match(self.entries@, key, idx as int);
                    assert forall|k: ScopeKey| k != key implies self.entry_of(k) == entry_in(
                        s1,
                        k,
                    ) by {
                        lemma_entry_in_update_other(s1, idx as int, (key, denied), k);
                    }
                }
                AdmitResult::Denied {
                    retry_after: ready - now,
                    first_try: first,
                    delay_action: self.delay_action,
                }
            }
        }
    }

    /// A waiter that was handed [`AdmitResult::WaitUntil`] retries here
    /// once the promised instant has passed (or gives up no later than
    /// one full refill interval after it started waiting). Its waiter
    /// slot is freed either way; if still no token has accrued for
    /// `key`, the waiter is denied like any other caller.
    pub fn finish_wait(&mut self, key: ScopeKey, now: u64) -> (r: AdmitResult)
        requires
            old(self).wf(),
            old(self).waiters >= 1,
            now <= MAX_TICK,
        ensures
            final(self).wf(),
            finish_wait_outcome(*old(self), *final(self), key, now, r),
    {
        self.waiters = self.waiters - 1;
        let ghost pre_touch = *self;
        let idx = self.touch(key, now);
        let ghost post_touch = *self;
        let st = self.entries[idx].1;
        if st.tokens_remaining >= 1 {
            let ghost s1 = self.entries@;
            let taken = TokenState {
                tokens_remaining: st.tokens_remaining - 1,
                refilled_at: st.refilled_at,
                denial_streak: 0,
            };
            self.entries.set(idx, (key, taken));
            proof {
                lemma_entry_in_first_match(self.entries@, key, idx as int);
                assert forall|k: ScopeKey| k != key implies self.entry_of(k) == old(
                    self,
                ).entry_of(k) by {
                    lemma_entry_in_update_other(s1, idx as int, (key, taken), k);
                    assert(post_touch.entry_of(k) == pre_touch.entry_of(k));
                    assert(pre_touch.entry_of(k) == old(self).entry_of(k));
                }
            }
            AdmitResult::Allowed
        } else {
            let ghost s1 = self.entries@;
            let ready = st.refilled_at + self.refill_interval;
            let first = st.denial_streak == 0;
            let new_streak = if st.denial_streak == u64::MAX {
                u64::MAX
            } else {
                st.denial_streak + 1
            };
            let denied = TokenState {
                tokens_remaining: 0,
                refilled_at: st.refilled_at,
                denial_streak: new_streak,
            };
            self.entries.set(idx, (key, denied));
            proof {
                lemma_entry_in_first_match(self.entries@, key, idx as int);
                assert forall|k: ScopeKey| k != key implies self.entry_of(k) == old(
                    self,
                ).entry_of(k) by {
                    lemma_entry_in_update_other(s1, idx as int, (key, denied), k);
                    assert(post_touch.entry_of(k) == pre_touch.entry_of(k));
                    assert(pre_touch.entry_of(k) == old(self).entry_of(k));
                }
            }
            AdmitResult::Denied {
                retry_after: ready - now,
                first_try: first,
                delay_action: self.delay_action,
            }
        }
    }

    /// Gives exactly one token back to `key`, capped at capacity: the
    /// revert path for a handler whose admitted attempt should not
    /// count against the limit. A key never seen is already full and
    /// stays untouched.
    pub fn give_back(&mut self, key: ScopeKey)
        requires
            old(self).wf(),
        ensures
            final(self).wf(),
            revert_step(*old(self), *final(self), key),
    {
        let ghost s0 = self.entries@;
        match self.find_entry(key) {
            None => {},
            Some(i) => {
                let st = self.entries[i].1;
                let t = if st.tokens_remaining >= self.capacity {
                    self.capacity
                } else {
                    st.tokens_remaining + 1
                };
                let reverted = TokenState {
                    tokens_remaining: t,
                    refilled_at: st.refilled_at,
                    denial_streak: st.denial_streak,
                };
                self.entries.set(i, (key, reverted));
                proof {
                    lemma_entry_in_first_match(self.entries@, key, i as int);
                    assert forall|k: ScopeKey| k != key implies self.entry_of(k) == entry_in(
                        s0,
                        k,
                    ) by {
                        lemma_entry_in_update_other(s0, i as int, (key, reverted), k);
                    }
                }
            },
        }
    }
}

/// A stored entry sits at some index, where [`Bucket::wf`]'s bounds
/// apply to it.
proof fn lemma_entry_in_some_index(s: Seq<(ScopeKey, TokenState)>, key: ScopeKey)
    requires
        entry_in(s, key) is Some,
    ensures
        exists|i: int|
            0 <= i < s.len() && #[trigger] s[i] == (key, entry_in(s, key)->Some_0),
    decreases s.len(),
{
    if s.len() > 0 {
        if s[0].0 == key {
            assert(s[0] == (key, entry_in(s, key)->Some_0));
        } else {
            lemma_entry_in_some_index(s.skip(1), key);
            let i = choose|i: int|
                0 <= i < s.skip(1).len() && #[trigger] s.skip(1)[i] == (
                    key,
                    entry_in(s.skip(1), key)->Some_0,
                );
            assert(s[i + 1] == (key, entry_in(s, key)->Some_0));
        }
    }
}

/// Law: at any instant, every key's token count lies between 0 and the
/// bucket's capacity — never negative, never above capacity.
pub proof fn lemma_tokens_within_capacity(b: Bucket, key: ScopeKey, now: u64)
    requires
        b.wf(),
    ensures
        0 <= b.tokens_at(key, now) <= b.capacity,
{
    match b.entry_of(key) {
        None => {},
        Some(st) => {
            lemma_entry_in_some_index(b.entries@, key);
            if now > st.refilled_at {
                lemma_div_pos_is_pos((now - st.refilled_at) as int, b.refill_interval as int);
            }
        },
    }
}

/// Law: refill is monotonic in time. For a fixed scope key with no
/// admits in between, the token count never decreases as time advances,
/// and it stays capped at capacity.
pub proof fn lemma_refill_monotonic(b: Bucket, key: ScopeKey, early: u64, late: u64)
    requires
        b.wf(),
        early <= late,
    ensures
        b.tokens_at(key, early) <= b.tokens_at(key, late),
        b.tokens_at(key, late) <= b.capacity,
{
    lemma_tokens_within_capacity(b, key, late);
    match b.entry_of(key) {
        None => {},
        Some(st) => {
            if late > st.refilled_at {
                lemma_div_pos_is_pos((late - st.refilled_at) as int, b.refill_interval as int);
                if early > st.refilled_at {
                    lemma_div_is_ordered(
                        (early - st.refilled_at) as int,
                        (late - st.refilled_at) as int,
                        b.refill_interval as int,
                    );
                }
            }
        },
    }
}

/// Law: a revert after a successful admission restores exactly one
/// token to the same scope key — the count at that instant is back to
/// what it was before the admission — and touches no other key.
pub proof fn lemma_revert_restores_token(
    b0: Bucket,
    b1: Bucket,
    b2: Bucket,
    key: ScopeKey,
    now: u64,
)
    requires
        b0.wf(),
        admit_allowed(b0, b1, key, now),
        revert_step(b1, b2, key),
    ensures
        b2.tokens_at(key, now) == b0.tokens_at(key, now),
        forall|k: ScopeKey| k != key ==> b2.entry_of(k) == b0.entry_of(k),
{
    lemma_tokens_within_capacity(b0, key, now);
    let a = b0.tokens_at(key, now);
    let st1 = b1.entry_of(key)->Some_0;
    let st2 = b2.entry_of(key)->Some_0;
    assert(st2.tokens_remaining == a);
    assert(st2.refilled_at == st1.refilled_at);
    assert(accrued(st2, now, b2.refill_interval) == accrued(st1, now, b1.refill_interval));
    assert(b2.tokens_at(key, now) == min(b2.capacity as int, a + 0));
}

/// When the first `i` keys of `s` differ from `key` and `s[i]` carries
/// `key`, the lookup returns `s[i]`'s state.
proof fn lemma_entry_in_first_match(s: Seq<(ScopeKey, TokenState)>, key: ScopeKey, i: int)
    requires
        0 <= i < s.len(),
        forall|j: int| 0 <= j < i ==> s[j].0 != key,
        s[i].0 == key,
    ensures
        entry_in(s, key) == Some(s[i].1),
    decreases i,
{
    if i > 0 {
        lemma_entry_in_first_match(s.skip(1), key, i - 1);
    }
}

/// A key carried by no pair of `s` has no entry.
proof fn lemma_entry_in_absent(s: Seq<(ScopeKey, TokenState)>, key: ScopeKey)
    requires
        forall|j: int| 0 <= j < s.len() ==> s[j].0 != key,
    ensures
        entry_in(s, key) is None,
    decreases s.len(),
{
    if s.len() > 0 {
        lemma_entry_in_absent(s.skip(1), key);
    }
}

/// Replacing the pair at `i` by one with the same key leaves every
/// other key's entry unchanged.
proof fn lemma_entry_in_update_other(
    s: Seq<(ScopeKey, TokenState)>,
    i: int,
    p: (ScopeKey, TokenState),
    k: ScopeKey,
)
    requires
        0 <= i < s.len(),
        p.0 == s[i].0,
        k != s[i].0,
    ensures
        entry_in(s.update(i, p), k) == entry_in(s, k),
    decreases s.len(),
{
    if i == 0 {
        assert(s.update(0, p).skip(1) =~= s.skip(1));
    } else {
        assert(s.update(i, p).skip(1) =~= s.skip(1).update(i - 1, p));
        lemma_entry_in_update_other(s.skip(1), i - 1, p, k);
    }
}

/// Appending a pair for one key leaves every other key's entry
/// unchanged.
proof fn lemma_entry_in_push_other(
    s: Seq<(ScopeKey, TokenState)>,
    p: (ScopeKey, TokenState),
    k: ScopeKey,
)
    requires
        p.0 != k,
    ensures
        entry_in(s.push(p), k) == entry_in(s, k),
    decreases s.len(),
{
    if s.len() == 0 {
        assert(s.push(p)[0] == p);
        assert(s.push(p).skip(1) =~= Seq::<(ScopeKey, TokenState)>::empty());
        assert(entry_in(s.push(p), k) == entry_in(s.push(p).skip(1), k));
        assert(entry_in(Seq::<(ScopeKey, TokenState)>::empty(), k) is None);
    } else {
        assert(s.push(p)[0] == s[0]);
        assert(s.push(p).skip(1) =~= s.skip(1).push(p));
        lemma_entry_in_push_other(s.skip(1), p, k);
    }
}

} // verus!
