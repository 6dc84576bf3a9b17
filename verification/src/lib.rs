//! Ranking of chat messages by reaction engagement.
//!
//! The crate assembles a channel's messages through a cursor-based
//! pagination protocol, drops edited messages, and orders the rest
//! under one of three selectable metrics: a time-decayed score, the
//! raw reaction count, or reactions per hour.

pub mod bignum;
pub mod duration_text;
pub mod flags;
pub mod msg;
pub mod order;
pub mod paginate;
pub mod rank;
