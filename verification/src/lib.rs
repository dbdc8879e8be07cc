//! Assigns Folding@home CPU cores to user-defined groups of CPUs.

pub mod error;
pub mod text;
pub mod order;
pub mod arg;
pub mod range;
pub mod sched_affinity;
pub mod fah;
pub mod schedule;
pub mod ncpu;
