//! Verifiable encryption of discrete-log secrets to an anticipated key, by
//! cut-and-choose: the sender commits to one-time pads, the receiver opens a
//! random subset and maps the rest into buckets, and the sender encrypts each
//! target secret under its bucket's key with a batched proof of consistency.
#![allow(non_snake_case)]

pub mod alice;
pub mod bob;
pub mod common;
pub mod dleq;
pub mod error;
pub mod group;
pub mod messages;
pub mod oracle;
pub mod poly;
pub mod threshold;
