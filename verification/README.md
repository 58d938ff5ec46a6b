# go_lib

Goroutines for Rust: lightweight tasks that a few threads run, with channels,
`select`, wait groups, condition variables, scopes, timers, a network poller,
system calls that do not hold up others, preemption, and stacks that grow.

The scheduler's decisions are verified with Verus. `src/` holds its data
structures and every rule by which they change, as plain functions on plain
values with contracts: what a function is given, what it returns, and what it
makes of the state. Threads, signals, memory mapping and context switches are in
`app/`, which carries the decisions out.

## Layout

| Part | What it holds |
| --- | --- |
| `src/runtime/g.rs`, `m.rs`, `p.rs` | goroutines and their status, threads, processors and run queues |
| `src/runtime/sched.rs`, `run.rs`, `park.rs`, `procs.rs` | finding work, the life of a goroutine, parking and waking, setting up |
| `src/runtime/syscall.rs`, `sysmon.rs`, `preempt.rs` | system calls, the monitor, stopping goroutines from outside |
| `src/runtime/stack.rs`, `fault.rs` | stacks and how they grow, reports on faults |
| `src/runtime/time.rs`, `netpoll.rs` | timers and the clock, the network poller |
| `src/runtime/sudog.rs`, `rawmutex.rs`, `rcu.rs`, `panics.rs` | waiting goroutines, locks, guards, panics |
| `src/runtime/order.rs` | what every step of the scheduler keeps |
| `src/chan.rs`, `src/select.rs` | channels and `select` |
| `src/stream.rs`, `src/sends.rs` | the order of the values under way, and that each is moved once |
| `src/scope.rs`, `src/sync/` | scopes, wait groups and condition variables |
| `app/` | the program around the library |
| `tests/` | tests; `programs.rs` runs whole programs of goroutines on a simulated machine |

## How the parts meet

An object is known by its index: a goroutine is a place in `Rt::gs`, a thread one
in `Rt::ms`, a processor one in `Rt::ps`. A function that would block says so in
its result (park, sleep, yield, spin), and the caller does it and comes back.
Where two threads could interleave, each function is one step under the
scheduler's lock.

The state's view, `RtView`, is a mathematical value. Most contracts have the form
`final(self)@ == old(self)@.step(..)`, where `step` is a specification function
that says directly what changes; the laws that relate several steps are public
proof functions beside them.
