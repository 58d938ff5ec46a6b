//! Synchronisation of goroutines.

pub mod cond;
pub mod waitgroup;

pub use cond::Cond;
pub use waitgroup::WaitGroup;
