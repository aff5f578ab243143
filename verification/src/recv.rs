//! Receivers are how metrics come into the agent.
//!
//! The wire-level front ends (socket listeners) live with the host; this
//! module holds the protocol itself: the line grammar and its parser.

pub mod statsd;
