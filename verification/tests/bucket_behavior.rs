//! Rate-limit bucket scenarios: capacity, refill timing, denial
//! details and reverts.

use botcore::bucket::{AdmitResult, Bucket, OverflowPolicy, Scope, ScopeKey};

fn channel_bucket(capacity: u64, interval: u64, policy: OverflowPolicy) -> Bucket {
    Bucket::new(Scope::PerChannel, capacity, interval, policy, false)
}

#[test]
fn two_tokens_then_denied_within_the_interval() {
    // capacity 2, refill every 30s, per-channel: three attempts for the
    // same channel within one second go Allowed, Allowed, Denied.
    let mut b = channel_bucket(2, 30, OverflowPolicy::Reject);
    let key = ScopeKey::Channel(7);
    assert!(matches!(b.try_admit(key, 0), AdmitResult::Allowed));
    assert!(matches!(b.try_admit(key, 0), AdmitResult::Allowed));
    match b.try_admit(key, 1) {
        AdmitResult::Denied { retry_after, first_try, .. } => {
            assert_eq!(retry_after, 29);
            assert!(first_try);
        }
        other => panic!("expected Denied, got {other:?}"),
    }
}

#[test]
fn a_second_denial_is_not_the_first_try() {
    let mut b = channel_bucket(1, 30, OverflowPolicy::Reject);
    let key = ScopeKey::Channel(7);
    assert!(matches!(b.try_admit(key, 0), AdmitResult::Allowed));
    assert!(matches!(
        b.try_admit(key, 1),
        AdmitResult::Denied { first_try: true, .. }
    ));
    assert!(matches!(
        b.try_admit(key, 2),
        AdmitResult::Denied { first_try: false, .. }
    ));
}

#[test]
fn tokens_refill_with_time_and_cap_at_capacity() {
    let mut b = channel_bucket(2, 30, OverflowPolicy::Reject);
    let key = ScopeKey::Channel(7);
    assert!(matches!(b.try_admit(key, 0), AdmitResult::Allowed));
    assert!(matches!(b.try_admit(key, 0), AdmitResult::Allowed));
    assert!(matches!(b.try_admit(key, 29), AdmitResult::Denied { .. }));
    // one interval later one token is back; a long pause brings it only
    // back to capacity, never beyond.
    assert!(matches!(b.try_admit(key, 30), AdmitResult::Allowed));
    assert!(matches!(b.try_admit(key, 10_000), AdmitResult::Allowed));
    assert!(matches!(b.try_admit(key, 10_000), AdmitResult::Allowed));
    assert!(matches!(b.try_admit(key, 10_000), AdmitResult::Denied { .. }));
}

#[test]
fn scope_keys_are_independent() {
    let mut b = channel_bucket(1, 30, OverflowPolicy::Reject);
    assert!(matches!(
        b.try_admit(ScopeKey::Channel(1), 0),
        AdmitResult::Allowed
    ));
    assert!(matches!(
        b.try_admit(ScopeKey::Channel(2), 0),
        AdmitResult::Allowed
    ));
    assert!(matches!(
        b.try_admit(ScopeKey::Channel(1), 0),
        AdmitResult::Denied { .. }
    ));
}

#[test]
fn revert_restores_exactly_one_token() {
    let mut b = channel_bucket(2, 30, OverflowPolicy::Reject);
    let key = ScopeKey::Channel(7);
    assert!(matches!(b.try_admit(key, 0), AdmitResult::Allowed));
    assert!(matches!(b.try_admit(key, 0), AdmitResult::Allowed));
    b.give_back(key);
    // exactly one token is back: one more admit works, the next fails.
    assert!(matches!(b.try_admit(key, 0), AdmitResult::Allowed));
    assert!(matches!(b.try_admit(key, 0), AdmitResult::Denied { .. }));
}

#[test]
fn revert_never_exceeds_capacity() {
    let mut b = channel_bucket(1, 30, OverflowPolicy::Reject);
    let key = ScopeKey::Channel(7);
    assert!(matches!(b.try_admit(key, 0), AdmitResult::Allowed));
    b.give_back(key);
    b.give_back(key);
    assert!(matches!(b.try_admit(key, 0), AdmitResult::Allowed));
    assert!(matches!(b.try_admit(key, 0), AdmitResult::Denied { .. }));
}

#[test]
fn bounded_wait_hands_out_one_slot_then_denies() {
    let mut b = channel_bucket(1, 30, OverflowPolicy::WaitBounded(1));
    let key = ScopeKey::Channel(7);
    assert!(matches!(b.try_admit(key, 0), AdmitResult::Allowed));
    let ready_at = match b.try_admit(key, 5) {
        AdmitResult::WaitUntil { ready_at } => ready_at,
        other => panic!("expected WaitUntil, got {other:?}"),
    };
    assert_eq!(ready_at, 30);
    // the queue is full: the next caller is denied outright.
    assert!(matches!(b.try_admit(key, 6), AdmitResult::Denied { .. }));
    // the waiter redeems its slot once the token accrued.
    assert!(matches!(b.finish_wait(key, 30), AdmitResult::Allowed));
}

#[test]
fn a_waiter_that_finds_no_token_is_denied() {
    let mut b = channel_bucket(1, 30, OverflowPolicy::WaitBounded(2));
    let key = ScopeKey::Channel(7);
    assert!(matches!(b.try_admit(key, 0), AdmitResult::Allowed));
    assert!(matches!(b.try_admit(key, 0), AdmitResult::WaitUntil { .. }));
    assert!(matches!(b.try_admit(key, 0), AdmitResult::WaitUntil { .. }));
    // the first waiter takes the one refilled token; the second finds
    // none and degrades to a denial.
    assert!(matches!(b.finish_wait(key, 30), AdmitResult::Allowed));
    assert!(matches!(b.finish_wait(key, 30), AdmitResult::Denied { .. }));
}

#[test]
fn delay_action_flag_is_reported_on_denial() {
    let mut b = Bucket::new(Scope::Global, 1, 3, OverflowPolicy::Reject, true);
    assert!(matches!(b.try_admit(ScopeKey::All, 0), AdmitResult::Allowed));
    assert!(matches!(
        b.try_admit(ScopeKey::All, 0),
        AdmitResult::Denied { delay_action: true, .. }
    ));
}
