//! The scheduler's state and its transitions.
//!
//! Goroutines, machine threads and processors live in arenas and are named by
//! their index there.  `None` stands for "no such object".

pub mod fault;
pub mod g;
pub mod m;
pub mod netpoll;
pub mod order;
pub mod p;
pub mod panics;
pub mod park;
pub mod preempt;
pub mod procs;
pub mod rawmutex;
pub mod rcu;
pub mod run;
pub mod sched;
pub mod stack;
pub mod sudog;
pub mod syscall;
pub mod sysmon;
pub mod time;
