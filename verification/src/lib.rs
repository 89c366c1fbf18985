//! A bounded, time-windowed, per-author rate-limited message buffer,
//! with the admission policy and its wire codec verified.

pub mod buffer;
pub mod codec;
pub mod facade;

pub use buffer::{Buffer, Config, Message, RejectReason};
