//! Live state synchronisation and broadcast.
//!
//! The library keeps one mirror of an upstream session's state, brings it up
//! to date from snapshot and update messages, and republishes each change to
//! any number of subscribers.
//!
//! - [`document`]: documents, their mathematical value, and the merge-patch.
//! - [`mirror`]: the mirror, reached through exclusive access.
//! - [`event`]: inbound messages and outbound events.
//! - [`channel`]: the fan-out channel to the subscribers.
//! - [`processor`]: the protocol state machine of one upstream connection.
//! - [`supervisor`]: the state machine that gates, retries and backs off.
//! - [`origins`]: the allow-list of origins of the HTTP side.

pub mod channel;
pub mod document;
pub mod event;
pub mod mirror;
pub mod origins;
pub mod processor;
pub mod supervisor;
mod vectors;
