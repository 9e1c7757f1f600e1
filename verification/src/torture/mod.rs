//! Target-agnostic fault-injection harness.
//!
//! The harness is split into pieces that vary independently:
//!
//! - a **fault backend** ([`docker::Docker`]): how a broker is killed, frozen,
//!   or cut off from its peers — identical for every containerized target;
//! - a **target** ([`cluster::FaultTarget`]): the cluster under test as a
//!   *client* can observe it (metadata-visible leaders, health), plus the
//!   fault backend wired to its containers;
//! - a **workload** ([`workload`]): how ids are put into values, produced, and
//!   read back into the checker's history;
//! - the **schedule** ([`schedule`]) and **failover recorder**
//!   ([`failover`]): seeded fault sequence, per-fault timing split, per-second
//!   ack timeline — the same code for every target, so two systems' numbers
//!   mean the same thing.

pub mod cluster;
pub mod docker;
pub mod failover;
pub mod kafka;
pub mod kmeta;
pub mod preset;
pub mod probe;
pub mod process;
pub mod replog;
pub mod run;
pub mod run_laws;
pub mod schedule;
pub mod summary;
pub mod view_laws;
pub mod workload;
