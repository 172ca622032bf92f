//! A reliable, ordered, gap-filling subscriber core for a best-effort
//! publish/subscribe bus.
//!
//! The bus delivers samples without loss detection or cross-reconnection
//! ordering. This library adds, per subscriber: per-source ordered delivery
//! using publisher sequence numbers or distributed timestamps, gap detection
//! with retransmission queries against caching publishers, historical
//! backfill (including late-joining publishers discovered through liveliness
//! tokens), periodic last-hope queries, and miss notifications for
//! unrecoverable gaps.
//!
//! The core is a verified state machine over plain values: every inbound
//! event (live sample, query reply, reply-stream completion, liveliness
//! token, timer tick) is a method of [`state::SubscriberState`] that returns
//! what must happen, in order — deliveries and miss notifications
//! ([`tracker::Emission`]) and queries to issue ([`state::QueryRequest`]).
//! The surroundings run the session: they perform the bus calls and feed the
//! results back in.

pub mod sample;
pub mod numfmt;
pub mod keformat;
pub mod buffer;
pub mod tsbuffer;
pub mod tracker;
pub mod ts_tracker;
pub mod state;
pub mod events;
pub mod laws;
