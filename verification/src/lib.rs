//! replog: a replicated, segmented commit log.
//!
//! The crate holds the rules of the log: the record and frame formats, segment
//! recovery, the broker, controller and consumer-group decisions, and the
//! history checker. Files, sockets and clocks stay outside: functions take the
//! bytes and times that were observed and return what is to be done.

pub mod broker;
pub mod checker;
pub mod client;
pub mod codec;
pub mod controller;
pub mod crc;
pub mod harness;
pub mod ids;
pub mod order;
pub mod proto;
pub mod search;
pub mod storage;
pub mod text;
pub mod torture;
