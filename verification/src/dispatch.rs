//! The dispatch pipeline: one message moves through resolution, the
//! `before` hooks, permission checks, usage counting, admission, the
//! handler, and the terminal outcome, in that fixed order.
//!
//! The pipeline is split where collaborators act. [`Dispatcher::prepare`]
//! runs everything up to and including admission and either finishes the
//! dispatch (not a command, unrecognized, suppressed by a hook, not
//! permitted, denied) or hands back what the caller needs to run the
//! handler; with a full bucket under a waiting policy it hands back a
//! waiter slot to redeem via [`Dispatcher::resume`]. After the handler
//! ran, [`Dispatcher::conclude`] turns its result into the terminal
//! outcome, giving the rate-limit ticket back when the handler asked
//! for a revert. The usage counter is bumped exactly once per dispatch,
//! when the `before` stage (hooks and permission checks) has passed,
//! before admission — attempted usage is counted, not successful usage.

use crate::bucket::{admit_outcome, finish_wait_outcome, revert_step, AdmitResult, ScopeKey, MAX_TICK};
use crate::counter::{record_step, CommandCounter};
use crate::message::Message;
use crate::registry::{key_for_spec, BucketRegistry};
use crate::resolver::{resolve, resolve_spec, Resolution, ResolutionView, ResolverConfig};
use vstd::prelude::*;

verus! {

/// What the command handler reported back to the pipeline.
pub enum HandlerResult {
    /// The handler did its work.
    Success,
    /// The handler finished but asks that its attempt not count
    /// against the rate limit: its ticket is given back.
    SuccessRevert,
    /// The handler failed with this error text.
    Error(String),
}

/// The terminal outcome of one dispatch, handed to collaborators.
pub enum DispatchOutcome {
    /// The message carried no configured trigger; nothing was done.
    NotACommand,
    /// No command matched; the unrecognized-command hook's case.
    Unrecognized {
        /// The token that matched nothing.
        name: String,
    },
    /// A `before` hook returned false: dispatch aborted silently.
    Suppressed,
    /// An owners-only or guild-only check failed; no handler ran.
    NotPermitted,
    /// The rate limit denied the attempt; no handler ran.
    Denied {
        /// Seconds until the next token accrues.
        retry_after: u64,
        /// First denial since the scope key last admitted: the moment
        /// for the one user-visible throttling notice.
        first_try: bool,
        /// Whether the bucket asks for its delay action to be run.
        delay_action: bool,
    },
    /// The handler ran and succeeded.
    Completed {
        /// Canonical name of the command that ran.
        name: String,
    },
    /// The handler ran, succeeded, and gave its ticket back.
    Reverted {
        /// Canonical name of the command that ran.
        name: String,
    },
    /// The handler ran and failed; the dispatcher survives.
    Failed {
        /// Canonical name of the command that ran.
        name: String,
        /// The handler's error text.
        error: String,
    },
}

/// The rate-limit ticket of an admitted dispatch: which bucket and
/// scope key its token came from, so a revert can give it back.
pub struct Ticket {
    /// Name of the bucket the token was taken from.
    pub bucket_name: String,
    /// Scope key the token was taken under.
    pub key: ScopeKey,
}

/// What [`Dispatcher::prepare`] hands back.
pub enum Prepared {
    /// The dispatch is finished; no handler runs.
    Done(DispatchOutcome),
    /// The bucket is exhausted but the caller holds a waiter slot: it
    /// should wait until `ready_at` (at most one refill interval) and
    /// then redeem the slot via [`Dispatcher::resume`].
    Wait {
        /// The instant the next token accrues.
        ready_at: u64,
        /// Which bucket and scope key the caller is waiting on.
        ticket: Ticket,
        /// Canonical name of the matched command.
        name: String,
        /// Unconsumed tokens, the command's arguments.
        args: Vec<String>,
        /// Index of the matched group.
        group: usize,
        /// Index of the matched command within the group.
        command: usize,
        /// Index of the matched sub-command, if one matched.
        sub: Option<usize>,
    },
    /// Admitted (or not rate-limited): the caller should now run the
    /// handler and report its result to [`Dispatcher::conclude`].
    Execute {
        /// The ticket to give back on a revert; `None` when the
        /// command declares no configured bucket.
        ticket: Option<Ticket>,
        /// Canonical name of the matched command.
        name: String,
        /// Unconsumed tokens, the command's arguments.
        args: Vec<String>,
        /// Index of the matched group.
        group: usize,
        /// Index of the matched command within the group.
        command: usize,
        /// Index of the matched sub-command, if one matched.
        sub: Option<usize>,
    },
}

/// The command dispatcher: the resolver configuration plus the two
/// pieces of shared mutable state, injected at construction.
pub struct Dispatcher {
    /// The immutable command tree and trigger configuration.
    pub config: ResolverConfig,
    /// The rate-limit buckets.
    pub registry: BucketRegistry,
    /// The per-command usage counter.
    pub counter: CommandCounter,
}

/// Whether running command `ci` of group `gi` requires the sender to
/// be an owner (the group's flag or the command's own).
pub open spec fn owners_only_of(cfg: ResolverConfig, gi: int, ci: int) -> bool {
    cfg.groups@[gi].owners_only || cfg.groups@[gi].commands@[ci].owners_only
}

/// Whether running command `ci` of group `gi` requires a guild
/// context.
pub open spec fn guild_only_of(cfg: ResolverConfig, gi: int, ci: int) -> bool {
    cfg.groups@[gi].guild_only || cfg.groups@[gi].commands@[ci].guild_only
}

/// Whether `msg`'s sender may run command `ci` of group `gi`.
pub open spec fn permitted(cfg: ResolverConfig, gi: int, ci: int, msg: Message) -> bool {
    &&& (owners_only_of(cfg, gi, ci) ==> msg.is_from_owner)
    &&& (guild_only_of(cfg, gi, ci) ==> msg.guild_id is Some)
}

/// The configured bucket name of command `ci` of group `gi`.
pub open spec fn bucket_name_of(cfg: ResolverConfig, gi: int, ci: int) -> Option<String> {
    cfg.groups@[gi].commands@[ci].bucket_name
}

/// Everything [`Dispatcher::prepare`] promises, case by case over the
/// resolution of the message text.
pub open spec fn prepare_post(
    pre: Dispatcher,
    post: Dispatcher,
    msg: Message,
    now: u64,
    before_pass: bool,
    p: Prepared,
) -> bool {
    match resolve_spec(pre.config, msg.content@) {
        ResolutionView::NotACommand => p == Prepared::Done(DispatchOutcome::NotACommand)
            && post.registry == pre.registry && post.counter == pre.counter,
        ResolutionView::Unrecognized { raw_name } => (p matches Prepared::Done(
            DispatchOutcome::Unrecognized { name },
        ) && name@ == raw_name) && post.registry == pre.registry && post.counter == pre.counter,
        ResolutionView::Matched { group, command, sub, name, args } => if !before_pass {
            p == Prepared::Done(DispatchOutcome::Suppressed) && post.registry == pre.registry
                && post.counter == pre.counter
        } else if !permitted(pre.config, group, command, msg) {
            p == Prepared::Done(DispatchOutcome::NotPermitted) && post.registry == pre.registry
                && post.counter == pre.counter
        } else {
            &&& record_step(pre.counter, post.counter, name)
            &&& match bucket_name_of(pre.config, group, command) {
                None => (p matches Prepared::Execute {
                    ticket,
                    name: n,
                    args: a,
                    group: g,
                    command: c,
                    sub: s,
                } && ticket is None && n@ == name && a.deep_view() == args && g == group && c
                    == command && sub_view(s) == sub) && post.registry == pre.registry,
                Some(bn) => match pre.registry.bucket_of(bn@) {
                    None => (p matches Prepared::Execute {
                        ticket,
                        name: n,
                        args: a,
                        group: g,
                        command: c,
                        sub: s,
                    } && ticket is None && n@ == name && a.deep_view() == args && g == group && c
                        == command && sub_view(s) == sub) && post.registry == pre.registry,
                    Some(b) => {
                        let key = key_for_spec(b.scope, msg);
                        &&& post.registry.bucket_of(bn@) matches Some(b2) && match p {
                            Prepared::Execute { ticket, name: n, args: a, group: g, command: c, sub: s } => (
                            ticket matches Some(t) && t.bucket_name@ == bn@ && t.key == key)
                                && n@ == name && a.deep_view() == args && g == group && c == command
                                && sub_view(s) == sub && admit_outcome(
                                b,
                                b2,
                                key,
                                now,
                                AdmitResult::Allowed,
                            ),
                            Prepared::Wait { ready_at, ticket, name: n, args: a, group: g, command: c, sub: s } => t_fields(
                                ticket,
                                bn@,
                                key,
                            ) && n@ == name && a.deep_view() == args && g == group && c == command
                                && sub_view(s) == sub && admit_outcome(
                                b,
                                b2,
                                key,
                                now,
                                AdmitResult::WaitUntil { ready_at },
                            ),
                            Prepared::Done(
                                DispatchOutcome::Denied { retry_after, first_try, delay_action },
                            ) => admit_outcome(
                                b,
                                b2,
                                key,
                                now,
                                AdmitResult::Denied { retry_after, first_try, delay_action },
                            ),
                            _ => false,
                        }
                        &&& forall|n2: Seq<char>|
                            n2 != bn@ ==> post.registry.bucket_of(n2) == pre.registry.bucket_of(
                                n2,
                            )
                    },
                },
            }
        },
    }
}

/// `Some(i)` read as a mathematical index.
pub open spec fn sub_view(s: Option<usize>) -> Option<int> {
    match s {
        Some(i) => Some(i as int),
        None => None,
    }
}

/// The ticket names this bucket and scope key.
pub open spec fn t_fields(t: Ticket, bn: Seq<char>, key: ScopeKey) -> bool {
    t.bucket_name@ == bn && t.key == key
}

impl Dispatcher {
    /// Both pieces of shared state are well-formed.
    pub open spec fn wf(self) -> bool {
        &&& self.registry.wf()
        &&& self.counter.wf()
    }

    /// A dispatcher over the given configuration, with the given
    /// buckets and a fresh usage counter.
    pub fn new(config: ResolverConfig, registry: BucketRegistry) -> (d: Dispatcher)
        requires
            registry.wf(),
        ensures
            d.wf(),
            d.config == config,
            d.registry == registry,
            forall|name: Seq<char>| d.counter.count_of(name) == 0,
    {
        Dispatcher { config, registry, counter: CommandCounter::new() }
    }

    /// Runs one dispatch up to and including admission.
    ///
    /// `before_pass` is the conjunction of the caller's ordered
    /// `before` hooks (true when there are none); a false aborts the
    /// dispatch as suppressed. An unrecognized command never reaches
    /// the registry or the counter. Once hooks and permission checks
    /// have passed, the usage counter is bumped for the matched name —
    /// also when admission then denies the attempt.
    pub fn prepare(&mut self, msg: &Message, now: u64, before_pass: bool) -> (p: Prepared)
        requires
            old(self).wf(),
            now <= MAX_TICK,
        ensures
            final(self).wf(),
            final(self).config == old(self).config,
            prepare_post(*old(self), *final(self), *msg, now, before_pass, p),
    {
        let resolution = resolve(&self.config, &msg.content);
        match resolution {
            Resolution::NotACommand => Prepared::Done(DispatchOutcome::NotACommand),
            Resolution::Unrecognized { raw_name } => Prepared::Done(
                DispatchOutcome::Unrecognized { name: raw_name },
            ),
            Resolution::Matched { group, command, sub, name, args } => {
                if !before_pass {
                    return Prepared::Done(DispatchOutcome::Suppressed);
                }
                let owners_only;
                let guild_only;
                let bucket: Option<String>;
                {
                    let g = &self.config.groups[group];
                    let c = &g.commands[command];
                    owners_only = g.owners_only || c.owners_only;
                    guild_only = g.guild_only || c.guild_only;
                    bucket = match &c.bucket_name {
                        Some(b) => Some(b.clone()),
                        None => None,
                    };
                }
                if owners_only && !msg.is_from_owner {
                    return Prepared::Done(DispatchOutcome::NotPermitted);
                }
                let in_guild = match msg.guild_id {
                    Some(_) => true,
                    None => false,
                };
                if guild_only && !in_guild {
                    return Prepared::Done(DispatchOutcome::NotPermitted);
                }
                self.counter.record(&name);
                match bucket {
                    None => Prepared::Execute { ticket: None, name, args, group, command, sub },
                    Some(bn) => {
                        let key_opt = self.registry.scope_key_of(&bn, msg);
                        match self.registry.try_admit(&bn, msg, now) {
                            AdmitResult::Allowed => {
                                let ticket = match key_opt {
                                    Some(k) => Some(Ticket { bucket_name: bn, key: k }),
                                    None => None,
                                };
                                Prepared::Execute { ticket, name, args, group, command, sub }
                            },
                            AdmitResult::Denied { retry_after, first_try, delay_action } => {
                                Prepared::Done(
                                    DispatchOutcome::Denied { retry_after, first_try, delay_action },
                                )
                            },
                            AdmitResult::WaitUntil { ready_at } => {
                                let key = key_opt.unwrap();
                                Prepared::Wait {
                                    ready_at,
                                    ticket: Ticket { bucket_name: bn, key },
                                    name,
                                    args,
                                    group,
                                    command,
                                    sub,
                                }
                            },
                        }
                    },
                }
            },
        }
    }

    /// Redeems a waiter slot once its promised instant has passed:
    /// either the dispatch is admitted after all (run the handler,
    /// then [`Dispatcher::conclude`]) or it is denied for good.
    pub fn resume(&mut self, p: Prepared, now: u64) -> (q: Prepared)
        requires
            old(self).wf(),
            now <= MAX_TICK,
            p matches Prepared::Wait { ticket, .. } && (old(self).registry.bucket_of(
                ticket.bucket_name@,
            ) matches Some(b) && b.waiters >= 1),
        ensures
            final(self).wf(),
            final(self).config == old(self).config,
            final(self).counter == old(self).counter,
            match p {
                Prepared::Wait { ready_at, ticket, name, args, group, command, sub } => {
                    let b = old(self).registry.bucket_of(ticket.bucket_name@)->Some_0;
                    &&& final(self).registry.bucket_of(ticket.bucket_name@) matches Some(b2)
                        && match q {
                        Prepared::Execute {
                            ticket: t2,
                            name: n,
                            args: a,
                            group: g,
                            command: c,
                            sub: s,
                        } => (t2 matches Some(t) && t.bucket_name@ == ticket.bucket_name@ && t.key
                            == ticket.key) && n@ == name@ && a.deep_view() == args.deep_view() && g
                            == group && c == command && s == sub && finish_wait_outcome(
                            b,
                            b2,
                            ticket.key,
                            now,
                            AdmitResult::Allowed,
                        ),
                        Prepared::Done(
                            DispatchOutcome::Denied { retry_after, first_try, delay_action },
                        ) => finish_wait_outcome(
                            b,
                            b2,
                            ticket.key,
                            now,
                            AdmitResult::Denied { retry_after, first_try, delay_action },
                        ),
                        _ => false,
                    }
                    &&& forall|n2: Seq<char>|
                        n2 != ticket.bucket_name@ ==> final(self).registry.bucket_of(n2) == old(
                            self,
                        ).registry.bucket_of(n2)
                },
                _ => false,
            },
    {
        match p {
            Prepared::Wait { ready_at: _, ticket, name, args, group, command, sub } => {
                match self.registry.finish_wait(&ticket.bucket_name, ticket.key, now) {
                    AdmitResult::Allowed => Prepared::Execute {
                        ticket: Some(ticket),
                        name,
                        args,
                        group,
                        command,
                        sub,
                    },
                    AdmitResult::Denied { retry_after, first_try, delay_action } => Prepared::Done(
                        DispatchOutcome::Denied { retry_after, first_try, delay_action },
                    ),
                    AdmitResult::WaitUntil { ready_at } => {
                        // finish_wait never asks to wait again; this arm is
                        // unreachable by its contract.
                        proof {
                            assert(false);
                        }
                        Prepared::Done(
                            DispatchOutcome::Denied {
                                retry_after: ready_at,
                                first_try: false,
                                delay_action: false,
                            },
                        )
                    },
                }
            },
            _ => {
                // the caller must hand in a waiter slot; nothing else
                // can be resumed.
                proof {
                    assert(false);
                }
                Prepared::Done(DispatchOutcome::Suppressed)
            },
        }
    }

    /// Gives the dispatch's rate-limit token back and consumes the
    /// ticket. A second call for the same dispatch finds the ticket
    /// gone and changes nothing: the revert is idempotent per
    /// dispatch, and never invents capacity beyond the bucket's cap.
    pub fn revert_ticket(&mut self, ticket: &mut Option<Ticket>)
        requires
            old(self).wf(),
        ensures
            final(self).wf(),
            final(self).config == old(self).config,
            final(self).counter == old(self).counter,
            *final(ticket) is None,
            match *old(ticket) {
                None => final(self).registry == old(self).registry,
                Some(t) => match old(self).registry.bucket_of(t.bucket_name@) {
                    None => final(self).registry == old(self).registry,
                    Some(b) => {
                        &&& final(self).registry.bucket_of(t.bucket_name@) matches Some(b2)
                            && revert_step(b, b2, t.key)
                        &&& forall|n2: Seq<char>|
                            n2 != t.bucket_name@ ==> final(self).registry.bucket_of(n2) == old(
                                self,
                            ).registry.bucket_of(n2)
                    },
                },
            },
    {
        let taken = ticket.take();
        match taken {
            None => {},
            Some(t) => {
                self.registry.revert(&t.bucket_name, t.key);
            },
        }
    }

    /// Turns the handler's result into the terminal outcome, giving
    /// the ticket back when the handler asked for a revert.
    pub fn conclude(
        &mut self,
        name: String,
        ticket: &mut Option<Ticket>,
        result: HandlerResult,
    ) -> (o: DispatchOutcome)
        requires
            old(self).wf(),
        ensures
            final(self).wf(),
            final(self).config == old(self).config,
            final(self).counter == old(self).counter,
            match result {
                HandlerResult::Success => (o matches DispatchOutcome::Completed { name: n } && n@
                    == name@) && final(self).registry == old(self).registry && *final(ticket)
                    == *old(ticket),
                HandlerResult::SuccessRevert => (o matches DispatchOutcome::Reverted { name: n }
                    && n@ == name@) && *final(ticket) is None && match *old(ticket) {
                    None => final(self).registry == old(self).registry,
                    Some(t) => match old(self).registry.bucket_of(t.bucket_name@) {
                        None => final(self).registry == old(self).registry,
                        Some(b) => {
                            &&& final(self).registry.bucket_of(t.bucket_name@) matches Some(b2)
                                && revert_step(b, b2, t.key)
                            &&& forall|n2: Seq<char>|
                                n2 != t.bucket_name@ ==> final(self).registry.bucket_of(n2) == old(
                                    self,
                                ).registry.bucket_of(n2)
                        },
                    },
                },
                HandlerResult::Error(e) => (o matches DispatchOutcome::Failed { name: n, error }
                    && n@ == name@ && error@ == e@) && final(self).registry == old(self).registry
                    && *final(ticket) == *old(ticket),
            },
    {
        match result {
            HandlerResult::Success => DispatchOutcome::Completed { name },
            HandlerResult::SuccessRevert => {
                self.revert_ticket(ticket);
                DispatchOutcome::Reverted { name }
            },
            HandlerResult::Error(e) => DispatchOutcome::Failed { name, error: e },
        }
    }
}

} // verus!
