//! The monitor, timers, system calls and the guards around descriptors.

use std::time::Duration;

use go_lib::runtime::g::{Stack, G, GRUNNABLE, GWAITING, STACK_PREEMPT};
use go_lib::runtime::m::Tls;
use go_lib::runtime::p::{PIDLE, PRUNNING, PSYSCALL};
use go_lib::runtime::procs::{schedinit, Config};
use go_lib::runtime::rawmutex::{LockStep, RawMutex, SPIN_LIMIT};
use go_lib::runtime::rcu::{Drainer, Rcu, Reader};
use go_lib::runtime::run::{Arch, Entry};
use go_lib::runtime::sched::Rt;
use go_lib::runtime::syscall::{with_syscall, ExitSyscall};
use go_lib::runtime::sysmon::{
    next_delay, next_idle, SysmonTick, FORCE_PREEMPT_NS, FORCE_RETAKE_NS, MAX_SLEEP_US,
    MIN_SLEEP_US,
};
use go_lib::runtime::time::{
    advance, fire_expired, next_wake, saturated, shard_of, sleep, timer_pause, Clock, SleepStep,
    TimerEntry, TimerHeap, TimerShard, IDLE_WAIT_NS, NO_TIMER, TIMER_SHARDS,
};

const STACK_BYTES: u64 = 32 * 1024;

fn scheduler(procs: i32) -> Rt {
    let stacks: Vec<Stack> = (0..procs as u64)
        .map(|i| Stack { lo: (i + 1) << 20, hi: ((i + 1) << 20) + 65536 })
        .collect();
    schedinit(
        procs,
        &stacks,
        Config { gpool_off: false, debug: false, stack_bytes: STACK_BYTES },
    )
}

fn spawn(rt: &mut Rt) -> usize {
    let lo = (rt.gs.len() as u64 + 100) << 20;
    let entry = Entry { entry_pc: 0x1000, exit_pc: 0x2000, arch: Arch::X86_64 };
    rt.spawn_goroutine(1, entry, Some(Stack { lo, hi: lo + STACK_BYTES })).0
}

fn on_thread(m: usize, rt: &Rt) -> Tls {
    let mut tls = Tls::new();
    let mut copy = rt.ms[m];
    tls.start(m, &mut copy, 1);
    tls
}

#[test]
fn sysmon_tick_default_is_zero() {
    let t = SysmonTick::default();
    assert_eq!(t.schedtick, 0);
    assert_eq!(t.schedwhen, 0);
    assert_eq!(t.syscalltick, 0);
    assert_eq!(t.syscallwhen, 0);
}

#[test]
fn retake_finds_nothing_on_first_pass() {
    let mut rt = scheduler(4);
    let mut ticks = Vec::new();
    let now = 5_000_000_000;
    let _ = rt.retake(now, &mut ticks);
    assert_eq!(ticks.len(), 4);
    let (n, threads) = rt.retake(now + 1_000, &mut ticks);
    assert_eq!(n, 0, "retake must return 0 when all Ps just started their tick");
    assert!(threads.is_empty());
}

#[test]
fn preemptone_sets_flags() {
    let mut rt = scheduler(1);
    let gp = spawn(&mut rt);
    let mut tls = on_thread(0, &rt);
    assert_eq!(rt.schedule(0), Some(gp));
    assert!(rt.execute(&mut tls, 0, gp).is_ok());
    rt.ms[0].pthread_id = 77;
    assert!(!rt.gs[gp].preempt, "preempt must be false before preemptone");
    assert_ne!(rt.gs[gp].stackguard0, STACK_PREEMPT);
    assert_eq!(rt.preemptone(0), Some(77));
    assert!(rt.gs[gp].preempt, "preempt must be true after preemptone");
    assert_eq!(rt.gs[gp].stackguard0, STACK_PREEMPT);
    assert_eq!(rt.ps[0].status, PRUNNING);
}

#[test]
fn retake_reclaims_psyscall_p() {
    let mut rt = scheduler(2);
    let tls = on_thread(0, &rt);
    rt.entersyscall(&tls);
    assert_eq!(rt.ps[0].status, PSYSCALL, "precondition: P must start as PSYSCALL");
    let mut ticks = Vec::new();
    let past = 1_000_000_000;
    let _ = rt.retake(past, &mut ticks);
    // Too soon.
    let _ = rt.retake(past + FORCE_RETAKE_NS - 1, &mut ticks);
    assert_eq!(rt.ps[0].status, PSYSCALL);
    let (n, _) = rt.retake(past + FORCE_RETAKE_NS + 1_000_000, &mut ticks);
    assert_eq!(n, 1);
    assert_eq!(rt.ps[0].status, PIDLE, "P must be PIDLE after retake");
    assert_eq!(rt.ps[0].m, None);
    assert_eq!(rt.idle_p, vec![0]);
}

#[test]
fn long_runs_are_preempted() {
    let mut rt = scheduler(1);
    let gp = spawn(&mut rt);
    let mut tls = on_thread(0, &rt);
    rt.ms[0].pthread_id = 5;
    assert_eq!(rt.schedule(0), Some(gp));
    assert!(rt.execute(&mut tls, 0, gp).is_ok());
    let mut ticks = Vec::new();
    assert_eq!(rt.retake(100, &mut ticks).0, 0);
    assert_eq!(rt.retake(100 + FORCE_PREEMPT_NS, &mut ticks).0, 0);
    let (n, threads) = rt.retake(101 + FORCE_PREEMPT_NS, &mut ticks);
    assert_eq!(n, 1);
    assert_eq!(threads, vec![5]);
    assert!(rt.gs[gp].preempt);
}

#[test]
fn monitor_pauses() {
    assert_eq!(next_delay(640, 0), MIN_SLEEP_US);
    assert_eq!(next_delay(20, 1), 20);
    assert_eq!(next_delay(20, 50), 20);
    assert_eq!(next_delay(20, 51), 40);
    assert_eq!(next_delay(6_000, 80), MAX_SLEEP_US);
    assert_eq!(next_delay(5_000, 80), 10_000);
    assert_eq!(next_idle(0, 7), 8);
    assert_eq!(next_idle(3, 7), 0);
}

#[test]
fn mono_ns_monotonic() {
    let mut clock = Clock::new();
    let a = clock.mono_ns();
    let b = clock.mono_ns();
    assert!(b >= a, "mono_ns must be non-decreasing");
}

#[test]
fn clock_runs() {
    let mut clock = Clock::new();
    let first = clock.mono_ns();
    let mut last = first;
    let mut reads = 0_u64;
    while last == first && reads < 50_000_000 {
        last = clock.mono_ns();
        reads += 1;
    }
    assert!(last > first, "the clock must move");
}

#[test]
fn clock_never_goes_back() {
    assert_eq!(advance(10, 12), 12);
    assert_eq!(advance(10, 10), 10);
    assert_eq!(advance(10, 3), 10);
}

#[test]
fn heap_gives_the_earliest_first() {
    let mut h = TimerHeap::new();
    assert_eq!(h.first_when(), NO_TIMER);
    for (i, when) in [50_u64, 20, 70, 20, 10, 60].iter().enumerate() {
        h.push(TimerEntry { when: *when, gp: i });
    }
    assert_eq!(h.len(), 6);
    assert_eq!(h.first_when(), 10);
    let due = h.pop_due(50);
    let times: Vec<u64> = due.iter().map(|e| e.when).collect();
    assert_eq!(times, vec![10, 20, 20, 50]);
    assert_eq!(h.pop(), Some(TimerEntry { when: 60, gp: 5 }));
    assert_eq!(h.pop(), Some(TimerEntry { when: 70, gp: 2 }));
    assert_eq!(h.pop(), None);
}

#[test]
fn timers_fire_wait_and_are_forgotten() {
    let mut rt = scheduler(1);
    let parked = spawn(&mut rt);
    let about_to_park = spawn(&mut rt);
    let dead = spawn(&mut rt);
    while rt.schedule(0).is_some() {}
    rt.gs[parked].atomicstatus = GWAITING;
    rt.gs[about_to_park].atomicstatus = 2;
    rt.gs[dead].atomicstatus = 6;
    let mut shards: Vec<TimerShard> = (0..TIMER_SHARDS).map(|_| TimerShard::new()).collect();
    assert!(shards[3].insert(TimerEntry { when: 100, gp: parked }));
    assert!(!shards[3].insert(TimerEntry { when: 110, gp: about_to_park }));
    assert!(shards[9].insert(TimerEntry { when: 90, gp: dead }));
    assert!(shards[9].insert(TimerEntry { when: 80, gp: dead }));
    assert_eq!(next_wake(&shards), 80);
    assert_eq!(fire_expired(&mut shards, &mut rt, 79).iter().map(Vec::len).sum::<usize>(), 0);
    let dues = fire_expired(&mut shards, &mut rt, 110);
    assert_eq!(dues[3].len(), 2);
    assert_eq!(dues[9].len(), 2);
    assert_eq!(rt.gs[parked].atomicstatus, GRUNNABLE);
    assert_eq!(rt.global_run_q.len(), 1);
    // The one that was about to park is tried again 5 ms later.
    assert_eq!(next_wake(&shards), 110 + 5_000_000);
    assert_eq!(shards[9].earliest, NO_TIMER);
}

#[test]
fn long_sleeps_are_as_long_as_can_be() {
    assert_eq!(saturated(0), 0);
    assert_eq!(saturated(1_500_000_000), 1_500_000_000);
    assert_eq!(saturated(u64::MAX as u128), u64::MAX);
    assert_eq!(saturated(u64::MAX as u128 + 1), u64::MAX);
    assert_eq!(saturated(Duration::MAX.as_nanos()), u64::MAX);
}

#[test]
fn sleeping_sets_a_timer() {
    let mut rt = scheduler(2);
    let gp = spawn(&mut rt);
    let mut shards: Vec<TimerShard> = (0..TIMER_SHARDS).map(|_| TimerShard::new()).collect();
    assert_eq!(sleep(&mut shards, &mut rt, gp, Some(1), 5, 0), SleepStep::Yield);
    assert_eq!(
        sleep(&mut shards, &mut rt, gp, Some(65), 5, 10),
        SleepStep::Park { wake: true }
    );
    assert_eq!(shards[1].earliest, 15);
    assert_eq!(
        sleep(&mut shards, &mut rt, gp, Some(1), 5, 20),
        SleepStep::Park { wake: false }
    );
    // A time beyond all times stands for the last one.
    assert_eq!(
        sleep(&mut shards, &mut rt, gp, None, u64::MAX - 3, 10),
        SleepStep::Park { wake: false }
    );
    assert_eq!(shards[0].heap.len(), 1);
    assert_eq!(shard_of(None), 0);
    assert_eq!(shard_of(Some(64)), 0);
    assert_eq!(shard_of(Some(63)), 63);
}

#[test]
fn timer_thread_pauses() {
    assert_eq!(timer_pause(NO_TIMER, 7), IDLE_WAIT_NS);
    assert_eq!(timer_pause(100, 100), 0);
    assert_eq!(timer_pause(100, 250), 0);
    assert_eq!(timer_pause(250, 100), 150);
}

#[test]
fn entersyscall_transitions_p() {
    let mut rt = scheduler(1);
    let tls = on_thread(0, &rt);
    rt.entersyscall(&tls);
    assert_eq!(rt.ps[0].status, PSYSCALL, "P must be PSYSCALL after entersyscall");
    assert_eq!(rt.ms[0].p, None, "M.p must be null after entersyscall");
    assert_eq!(rt.ms[0].oldp, Some(0), "M.oldp must point to the old P");
}

#[test]
fn exitsyscall_fast_path() {
    let mut rt = scheduler(1);
    let mut tls = on_thread(0, &rt);
    rt.entersyscall(&tls);
    assert_eq!(rt.exitsyscall(&mut tls), ExitSyscall::Resumed);
    assert_eq!(rt.ps[0].status, PRUNNING, "P must be PRUNNING after exitsyscall fast path");
    assert_eq!(rt.ms[0].p, Some(0), "M.p must be re-attached after exitsyscall fast path");
    assert_eq!(rt.ms[0].oldp, None, "M.oldp must be cleared");
}

#[test]
fn exitsyscall_without_a_processor_sleeps() {
    let mut rt = scheduler(1);
    let gp = spawn(&mut rt);
    let mut tls = on_thread(0, &rt);
    assert_eq!(rt.schedule(0), Some(gp));
    assert!(rt.execute(&mut tls, 0, gp).is_ok());
    rt.entersyscall(&tls);
    // The monitor gives the processor to a new thread.
    rt.ps[0].status = PIDLE;
    assert_eq!(rt.exitsyscall(&mut tls), ExitSyscall::Sleep);
    assert_eq!(rt.idle_m, vec![0]);
    assert_eq!(rt.global_run_q.len(), 1);
    assert_eq!(rt.gs[gp].atomicstatus, GRUNNABLE);
    assert_eq!(tls.current_g(), None);
}

#[test]
fn with_syscall_transparent() {
    let mut rt = scheduler(1);
    let mut tls = Tls::new();
    let (result, _) = with_syscall(&mut rt, &mut tls, || 42_i32);
    assert_eq!(result, 42);
}

#[test]
fn with_syscall_in_goroutine() {
    let mut rt = scheduler(1);
    let gp = spawn(&mut rt);
    let mut tls = on_thread(0, &rt);
    assert_eq!(rt.schedule(0), Some(gp));
    assert!(rt.execute(&mut tls, 0, gp).is_ok());
    rt.entersyscall(&tls);
    let during = rt.ps[rt.ms[0].oldp.unwrap()].status;
    assert_eq!(during, PSYSCALL, "P must be in PSYSCALL during with_syscall");
    assert_eq!(rt.exitsyscall(&mut tls), ExitSyscall::Resumed);
    let (result, out) = with_syscall(&mut rt, &mut tls, || 7);
    assert_eq!((result, out), (7, ExitSyscall::Resumed));
    assert_eq!(rt.ps[0].status, PRUNNING);
    assert_eq!(tls.current_g(), Some(gp));
}

#[test]
fn rcu_guard_roundtrip() {
    let mut rcu = Rcu::new();
    for _ in 0..100 {
        let mut r = rcu.reader_step(Reader::Idle);
        r = rcu.reader_step(r);
        assert_eq!(r, Reader::Holding);
        assert_eq!(rcu.reader_step(r), Reader::Idle);
    }
    assert_eq!(rcu, Rcu { in_cs: 0, drain_block: 0 });
}

#[test]
fn drainer_waits_for_a_reader() {
    let mut rcu = Rcu::new();
    let r = rcu.reader_step(Reader::Idle);
    let r = rcu.reader_step(r);
    let d = rcu.drainer_step(Drainer::Idle);
    let d = rcu.drainer_step(d);
    assert_eq!(d, Drainer::Waiting);
    assert_eq!(rcu.reader_step(r), Reader::Idle);
    assert_eq!(rcu.drainer_step(d), Drainer::Holding);
}

#[test]
fn reader_waits_for_all_drainers() {
    let mut rcu = Rcu::new();
    let d1 = rcu.drainer_step(Drainer::Idle);
    let d1 = rcu.drainer_step(d1);
    let d2 = rcu.drainer_step(Drainer::Idle);
    let d2 = rcu.drainer_step(d2);
    assert_eq!((d1, d2), (Drainer::Holding, Drainer::Holding));
    let r = rcu.reader_step(Reader::Idle);
    let r = rcu.reader_step(r);
    assert_eq!(r, Reader::Waiting);
    rcu.drainer_step(d1);
    assert_eq!(rcu.reader_step(r), Reader::Waiting);
    rcu.drainer_step(d2);
    let r = rcu.reader_step(r);
    let r = rcu.reader_step(r);
    assert_eq!(rcu.reader_step(r), Reader::Holding);
}

#[test]
fn raw_mutex_spins_then_yields() {
    let mut m = RawMutex::new();
    let mut spins = 0;
    assert_eq!(m.lock(&mut spins), LockStep::Acquired);
    assert!(!m.try_lock());
    for _ in 1..SPIN_LIMIT {
        assert_eq!(m.lock(&mut spins), LockStep::Spin);
    }
    assert_eq!(m.lock(&mut spins), LockStep::Yield);
    assert_eq!(spins, 0);
    m.unlock();
    assert!(m.try_lock());
}

#[test]
fn parked_goroutine_is_found_again() {
    let mut rt = scheduler(1);
    let gp = spawn(&mut rt);
    let mut tls = on_thread(0, &rt);
    assert_eq!(rt.schedule(0), Some(gp));
    assert!(rt.execute(&mut tls, 0, gp).is_ok());
    assert_eq!(rt.park_fn(&mut tls, 0, gp), None);
    let g: G = rt.gs[gp];
    assert_eq!(g.atomicstatus, GWAITING);
    assert_eq!(rt.schedule(0), None);
    rt.goready(Some(0), gp);
    assert_eq!(rt.ps[0].runnext, Some(gp));
    assert_eq!(rt.schedule(0), Some(gp));
}
