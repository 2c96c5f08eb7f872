//! A transparent layer-4 load balancer's verified core: the configuration
//! model and its validation, the fixed-capacity backend table and its kernel
//! record, and the control-plane synchronizer that turns a configuration
//! into kernel-store writes.
//!
//! [`engine::Engine`] is a model of the kernel-resident selection program:
//! how it picks a backend for each new connection under a hash, round-robin
//! or least-connections policy. The loader does not run it; it states and
//! proves what the kernel side is meant to do, on the same tables.

use vstd::prelude::*;

pub mod cli;
pub mod config;
pub mod engine;
pub mod sync;
pub mod table;
pub mod vip;

verus! {

} // verus!
