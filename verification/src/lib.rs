//! Command-dispatch and admission-control core for a chat bot.
//!
//! The library turns inbound chat messages into resolved command
//! invocations and protects those invocations with scoped rate limits:
//! - [`resolver`] matches raw text against a tree of command groups,
//!   aliases and sub-commands under configurable prefixes;
//! - [`bucket`] and [`registry`] enforce per-bucket rate limits with a
//!   configurable scope and overflow policy, including a `revert`
//!   mechanism that gives back a consumed ticket;
//! - [`counter`] keeps a process-wide usage count per command name;
//! - [`dispatch`] runs the ordered dispatch pipeline (hooks, permission
//!   checks, admission, handler outcome) as a verified state machine.
//!
//! Transport, command bodies and reply rendering are collaborators
//! outside this crate: they hand in plain [`message::Message`] values
//! and act on the [`dispatch::DispatchOutcome`] values handed back.
//! [`message`] holds the message value and the plain-message event
//! handler; [`text`] the tokenizer and decimal parsing that the
//! resolver and the argument-taking commands build on.

pub mod bucket;
pub mod counter;
pub mod dispatch;
pub mod message;
pub mod registry;
pub mod resolver;
pub mod text;

pub use counter::CommandCounter;
pub use dispatch::Dispatcher;
pub use message::Handler;
pub use message::Message;
