//! A goroutine scheduler whose decisions are proved.
//!
//! The library holds the scheduler's data structures and every rule by which
//! they change: run queues, work stealing, parking and waking, system calls,
//! preemption, stack growth, timers, channels under `select`, condition
//! variables, wait groups and scopes.  Threads, signals, memory mapping and
//! context switches belong to the program around it.

pub mod chan;
pub mod runtime;
pub mod scope;
pub mod select;
pub mod sends;
pub mod stream;
pub mod sync;
