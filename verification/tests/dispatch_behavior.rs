//! End-to-end dispatch scenarios: hooks, permissions, admission,
//! usage counting, revert and the bounded wait.

use botcore::bucket::{Bucket, OverflowPolicy, Scope};
use botcore::dispatch::{DispatchOutcome, Dispatcher, HandlerResult, Prepared};
use botcore::message::Message;
use botcore::registry::BucketRegistry;
use botcore::resolver::{CommandSpec, GroupSpec, ResolverConfig};

fn command(name: &str, bucket: Option<&str>, owners_only: bool) -> CommandSpec {
    CommandSpec {
        name: name.to_string(),
        aliases: Vec::new(),
        bucket_name: bucket.map(|b| b.to_string()),
        owners_only,
        guild_only: false,
        sub_commands: Vec::new(),
    }
}

fn dispatcher() -> Dispatcher {
    let general = GroupSpec {
        prefixes: Vec::new(),
        default_command: None,
        owners_only: false,
        guild_only: false,
        commands: vec![
            command("ping", None, false),
            command("commands", Some("complicated"), false),
            command("quit", None, true),
        ],
    };
    let config = ResolverConfig {
        prefixes: vec!["/".to_string()],
        mention_triggers: Vec::new(),
        whitespace_tolerant: true,
        delimiters: vec![' '],
        quote_aware: true,
        groups: vec![general],
    };
    let mut registry = BucketRegistry::new();
    registry.add_bucket(
        "complicated".to_string(),
        Bucket::new(Scope::PerChannel, 2, 30, OverflowPolicy::WaitBounded(1), true),
    );
    Dispatcher::new(config, registry)
}

fn message(text: &str) -> Message {
    Message::new(10, 20, Some(30), text.to_string(), &vec![42])
}

#[test]
fn a_full_dispatch_completes_and_counts_usage() {
    let mut d = dispatcher();
    let msg = message("/ping");
    match d.prepare(&msg, 0, true) {
        Prepared::Execute { name, mut ticket, .. } => {
            assert_eq!(name, "ping");
            assert!(ticket.is_none());
            let o = d.conclude(name, &mut ticket, HandlerResult::Success);
            assert!(matches!(o, DispatchOutcome::Completed { .. }));
        }
        _ => panic!("expected Execute"),
    }
    assert_eq!(d.counter.get(&"ping".to_string()), 1);
}

#[test]
fn usage_counts_attempts_whatever_the_handler_does() {
    let mut d = dispatcher();
    let n = 5;
    for i in 0..n {
        let msg = message("/ping");
        match d.prepare(&msg, i, true) {
            Prepared::Execute { name, mut ticket, .. } => {
                let result = if i % 2 == 0 {
                    HandlerResult::Success
                } else {
                    HandlerResult::Error("boom".to_string())
                };
                d.conclude(name, &mut ticket, result);
            }
            _ => panic!("expected Execute"),
        }
    }
    assert_eq!(d.counter.get(&"ping".to_string()), n);
}

#[test]
fn unrecognized_input_reaches_neither_buckets_nor_counter() {
    let mut d = dispatcher();
    let entries_before = {
        let b = &d.registry.buckets;
        assert_eq!(b.len(), 1);
        b[0].1.entries.len()
    };
    let msg = message("/frobnicate");
    match d.prepare(&msg, 0, true) {
        Prepared::Done(DispatchOutcome::Unrecognized { name }) => {
            assert_eq!(name, "frobnicate");
        }
        _ => panic!("expected Unrecognized"),
    }
    assert_eq!(d.registry.buckets[0].1.entries.len(), entries_before);
    assert!(d.counter.snapshot().is_empty());
}

#[test]
fn a_failed_before_hook_suppresses_the_dispatch() {
    let mut d = dispatcher();
    let msg = message("/ping");
    assert!(matches!(
        d.prepare(&msg, 0, false),
        Prepared::Done(DispatchOutcome::Suppressed)
    ));
    assert!(d.counter.snapshot().is_empty());
}

#[test]
fn owners_only_commands_reject_non_owners() {
    let mut d = dispatcher();
    let stranger = Message::new(10, 20, Some(30), "/quit".to_string(), &vec![42]);
    assert!(matches!(
        d.prepare(&stranger, 0, true),
        Prepared::Done(DispatchOutcome::NotPermitted)
    ));
    let owner = Message::new(42, 20, Some(30), "/quit".to_string(), &vec![42]);
    assert!(matches!(owner_prepare(&mut d, owner), Prepared::Execute { .. }));
}

fn owner_prepare(d: &mut Dispatcher, msg: Message) -> Prepared {
    d.prepare(&msg, 0, true)
}

#[test]
fn exhausted_bucket_denies_with_notice_details() {
    let mut d = dispatcher();
    for _ in 0..2 {
        let msg = message("/commands");
        match d.prepare(&msg, 0, true) {
            Prepared::Execute { name, mut ticket, .. } => {
                assert!(ticket.is_some());
                d.conclude(name, &mut ticket, HandlerResult::Success);
            }
            _ => panic!("expected Execute"),
        }
    }
    // the one waiter slot goes to the third caller; the fourth is
    // denied with the exact wait and the one-time-notice flag.
    let msg = message("/commands");
    assert!(matches!(d.prepare(&msg, 1, true), Prepared::Wait { .. }));
    let msg = message("/commands");
    match d.prepare(&msg, 1, true) {
        Prepared::Done(DispatchOutcome::Denied { retry_after, first_try, delay_action }) => {
            assert_eq!(retry_after, 29);
            assert!(first_try);
            assert!(delay_action);
        }
        _ => panic!("expected Denied"),
    }
    // denied dispatches still count as attempted usage
    assert_eq!(d.counter.get(&"commands".to_string()), 4);
}

#[test]
fn a_waiter_is_admitted_once_the_token_accrues() {
    let mut d = dispatcher();
    for _ in 0..2 {
        let msg = message("/commands");
        match d.prepare(&msg, 0, true) {
            Prepared::Execute { name, mut ticket, .. } => {
                d.conclude(name, &mut ticket, HandlerResult::Success);
            }
            _ => panic!("expected Execute"),
        }
    }
    let msg = message("/commands");
    let waiting = d.prepare(&msg, 1, true);
    let ready_at = match &waiting {
        Prepared::Wait { ready_at, .. } => *ready_at,
        _ => panic!("expected Wait"),
    };
    assert_eq!(ready_at, 30);
    match d.resume(waiting, ready_at) {
        Prepared::Execute { name, mut ticket, .. } => {
            assert_eq!(name, "commands");
            let o = d.conclude(name, &mut ticket, HandlerResult::Success);
            assert!(matches!(o, DispatchOutcome::Completed { .. }));
        }
        _ => panic!("expected Execute after the wait"),
    }
}

#[test]
fn revert_gives_the_ticket_back_and_is_idempotent() {
    let mut d = dispatcher();
    // drain the bucket with two successful dispatches, reverting one.
    let msg = message("/commands");
    let (name, mut ticket) = match d.prepare(&msg, 0, true) {
        Prepared::Execute { name, ticket, .. } => (name, ticket),
        _ => panic!("expected Execute"),
    };
    let o = d.conclude(name, &mut ticket, HandlerResult::SuccessRevert);
    assert!(matches!(o, DispatchOutcome::Reverted { .. }));
    assert!(ticket.is_none());
    // reverting again with the spent ticket changes nothing
    d.revert_ticket(&mut ticket);
    // the bucket is back to full: two more admits pass, a third waits.
    let msg = message("/commands");
    assert!(matches!(d.prepare(&msg, 0, true), Prepared::Execute { .. }));
    let msg = message("/commands");
    assert!(matches!(d.prepare(&msg, 0, true), Prepared::Execute { .. }));
    let msg = message("/commands");
    assert!(matches!(d.prepare(&msg, 0, true), Prepared::Wait { .. }));
}

#[test]
fn handler_errors_surface_as_failed_outcomes() {
    let mut d = dispatcher();
    let msg = message("/ping");
    match d.prepare(&msg, 0, true) {
        Prepared::Execute { name, mut ticket, .. } => {
            match d.conclude(name, &mut ticket, HandlerResult::Error("no reply".to_string())) {
                DispatchOutcome::Failed { name, error } => {
                    assert_eq!(name, "ping");
                    assert_eq!(error, "no reply");
                }
                _ => panic!("expected Failed"),
            }
        }
        _ => panic!("expected Execute"),
    }
}

#[test]
fn not_a_command_is_distinct_from_unrecognized() {
    let mut d = dispatcher();
    let msg = message("just chatting");
    assert!(matches!(
        d.prepare(&msg, 0, true),
        Prepared::Done(DispatchOutcome::NotACommand)
    ));
}
