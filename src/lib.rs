//! A bounded pool of short-lived numeric slots that stand in for URLs.
//!
//! `pool` holds the FIFO queue of free slot ids, `gateway` the slot table
//! with its time-to-live bookkeeping, and `messages` the plain values that
//! the transport layer exchanges with the gateway.

pub mod gateway;
pub mod messages;
pub mod pool;
