//! Registry scenarios: scope-key resolution and admission by bucket
//! name.

use botcore::bucket::{AdmitResult, Bucket, OverflowPolicy, Scope, ScopeKey};
use botcore::message::Message;
use botcore::registry::{scope_key_for, BucketRegistry};

fn msg_in_guild() -> Message {
    Message::new(10, 20, Some(30), "hi".to_string(), &vec![])
}

fn msg_direct() -> Message {
    Message::new(10, 20, None, "hi".to_string(), &vec![])
}

#[test]
fn scope_keys_follow_the_configured_scope() {
    let m = msg_in_guild();
    assert_eq!(scope_key_for(Scope::Global, &m), ScopeKey::All);
    assert_eq!(scope_key_for(Scope::PerUser, &m), ScopeKey::User(10));
    assert_eq!(scope_key_for(Scope::PerChannel, &m), ScopeKey::Channel(20));
    assert_eq!(scope_key_for(Scope::PerGuild, &m), ScopeKey::Guild(30));
    // outside a guild, a per-guild bucket falls back to the channel
    assert_eq!(scope_key_for(Scope::PerGuild, &msg_direct()), ScopeKey::Channel(20));
}

#[test]
fn an_unconfigured_bucket_name_is_not_limited() {
    let mut r = BucketRegistry::new();
    for _ in 0..10 {
        assert!(matches!(
            r.try_admit(&"missing".to_string(), &msg_in_guild(), 0),
            AdmitResult::Allowed
        ));
    }
}

#[test]
fn admission_is_tracked_per_bucket_name() {
    let mut r = BucketRegistry::new();
    r.add_bucket(
        "emoji".to_string(),
        Bucket::new(Scope::Global, 1, 3, OverflowPolicy::Reject, false),
    );
    r.add_bucket(
        "other".to_string(),
        Bucket::new(Scope::Global, 1, 3, OverflowPolicy::Reject, false),
    );
    let m = msg_in_guild();
    assert!(matches!(r.try_admit(&"emoji".to_string(), &m, 0), AdmitResult::Allowed));
    assert!(matches!(r.try_admit(&"emoji".to_string(), &m, 0), AdmitResult::Denied { .. }));
    // the sibling bucket still has its token
    assert!(matches!(r.try_admit(&"other".to_string(), &m, 0), AdmitResult::Allowed));
}

#[test]
fn revert_by_name_returns_the_token() {
    let mut r = BucketRegistry::new();
    r.add_bucket(
        "emoji".to_string(),
        Bucket::new(Scope::PerUser, 1, 3, OverflowPolicy::Reject, false),
    );
    let m = msg_in_guild();
    assert!(matches!(r.try_admit(&"emoji".to_string(), &m, 0), AdmitResult::Allowed));
    r.revert(&"emoji".to_string(), ScopeKey::User(10));
    assert!(matches!(r.try_admit(&"emoji".to_string(), &m, 0), AdmitResult::Allowed));
}

#[test]
fn owner_flag_is_derived_from_the_owner_set() {
    let owner = Message::new(42, 1, None, "x".to_string(), &vec![41, 42]);
    assert!(owner.is_from_owner);
    let other = Message::new(43, 1, None, "x".to_string(), &vec![41, 42]);
    assert!(!other.is_from_owner);
}
