//! A personal task tracker. Active tasks are committed and have a due time;
//! pooled tasks are candidates that an activation may promote at random once
//! their cool-down has passed. Every change is recorded in an append-only log,
//! and the whole state can be saved to bytes and read back.
use vstd::prelude::*;

pub mod codec;
pub mod menu;
mod outside;
pub mod store;
pub mod task;
pub mod tasklog;

verus! {

} // verus!
