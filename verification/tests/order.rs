//! Long runs of arbitrary steps, after each of which the scheduler is in order.

use std::collections::HashMap;

use go_lib::runtime::g::{readgstatus, Stack, WaitReason, GRUNNABLE, GRUNNING, GWAITING};
use go_lib::runtime::m::Tls;
use go_lib::runtime::p::{PIDLE, PRUNNING};
use go_lib::runtime::park::Ready;
use go_lib::runtime::procs::{procs_to_add, schedinit, set_gomaxprocs, Config};
use go_lib::runtime::run::{Arch, Entry, Next};
use go_lib::runtime::sched::Rt;
use go_lib::runtime::syscall::ExitSyscall;
use go_lib::runtime::sysmon::SysmonTick;
use go_lib::select::Lehmer;

const STACK_BYTES: u64 = 32 * 1024;

#[derive(Clone, Copy, PartialEq)]
enum Thread {
    Searching,
    Asleep,
    Running(usize),
    InCall(usize),
}

struct Machine {
    rt: Rt,
    threads: Vec<Thread>,
    tls: Vec<Tls>,
    ticks: Vec<SysmonTick>,
    now: u64,
    next_stack: u64,
    rng: Lehmer,
    steps: HashMap<&'static str, usize>,
}

fn g0_stacks(from: u64, n: usize) -> Vec<Stack> {
    (0..n as u64)
        .map(|i| Stack { lo: (from + i + 1) << 20, hi: ((from + i + 1) << 20) + 65536 })
        .collect()
}

impl Machine {
    fn new(procs: usize, seed: u64) -> Machine {
        let config = Config { gpool_off: false, debug: true, stack_bytes: STACK_BYTES };
        let mut m = Machine {
            rt: schedinit(procs as i32, &g0_stacks(0, procs), config),
            threads: Vec::new(),
            tls: Vec::new(),
            ticks: Vec::new(),
            now: 1,
            next_stack: 0x1_0000_0000,
            rng: Lehmer::from_goid(Some(seed)),
            steps: HashMap::new(),
        };
        m.start_threads();
        m
    }

    fn start_threads(&mut self) {
        while self.threads.len() < self.rt.ms.len() {
            let m = self.threads.len();
            let mut t = Tls::new();
            t.start(m, &mut self.rt.ms[m], 1000 + m as u64);
            self.tls.push(t);
            self.threads.push(Thread::Searching);
        }
    }

    fn count(&mut self, what: &'static str) {
        *self.steps.entry(what).or_insert(0) += 1;
    }

    fn spawn(&mut self) {
        let fresh = if self.rt.needs_stack() {
            let lo = self.next_stack;
            self.next_stack += 1 << 20;
            Some(Stack { lo, hi: lo + STACK_BYTES })
        } else {
            None
        };
        let entry = Entry { entry_pc: 0x1000, exit_pc: 0x2000, arch: Arch::X86_64 };
        self.rt.spawn_goroutine(1, entry, fresh);
        self.count("spawn");
    }

    fn ready_one(&mut self) {
        let parked: Vec<usize> = (0..self.rt.gs.len())
            .filter(|g| readgstatus(&self.rt.gs[*g]) == GWAITING)
            .collect();
        if parked.is_empty() {
            return;
        }
        let gp = parked[self.rng.next_usize(parked.len())];
        let from = if self.rng.next_usize(2) == 0 {
            None
        } else {
            Some(self.rng.next_usize(self.rt.ms.len()))
        };
        let wanted = |rt: &Rt| {
            rt.idle_p.iter().filter(|p| rt.ps[**p].id < rt.gomaxprocs).count()
        };
        let idle_thread = !self.rt.idle_m.is_empty() && wanted(&self.rt) > 0;
        let (threads, procs) = (self.rt.idle_m.len(), self.rt.idle_p.len());
        let spare = wanted(&self.rt);
        assert_eq!(self.rt.goready_step(from, gp), Ready::Readied);
        let woken = if idle_thread { 1 } else { 0 };
        assert_eq!(self.rt.idle_m.len(), threads - woken, "an idle thread must be woken");
        assert_eq!(self.rt.idle_p.len(), procs - woken);
        assert_eq!(wanted(&self.rt), spare - woken, "with a processor that is wanted");
        self.count("ready");
    }

    fn resize(&mut self) {
        let n = 1 + self.rng.next_usize(6);
        let added = procs_to_add(&self.rt, n);
        let at = self.rt.ms.len() as u64 + 1000;
        set_gomaxprocs(&mut self.rt, n, &g0_stacks(at, added));
        self.start_threads();
        self.count("resize");
    }

    fn monitor(&mut self) {
        self.now += 30_000_000;
        self.rt.retake(self.now, &mut self.ticks);
        self.count("retake");
    }

    /// Lets one thread do something.
    fn turn(&mut self) {
        let m = self.rng.next_usize(self.threads.len());
        match self.threads[m] {
            Thread::Asleep => {
                if self.rt.ms[m].park_m() {
                    self.threads[m] = Thread::Searching;
                    self.count("wake");
                }
            }
            Thread::Searching => {
                let found = match self.rt.ms[m].p {
                    Some(_) => self.rt.schedule(m),
                    None => self.rt.findrunnable(m),
                };
                match found {
                    Some(gp) => {
                        self.check(Some(gp));
                        let done = self.rt.execute(&mut self.tls[m], m, gp);
                        assert_eq!(done, Ok(()));
                        self.threads[m] = Thread::Running(gp);
                        self.count("execute");
                    }
                    None => match self.rt.after_poll(m) {
                        Next::Search => {}
                        Next::Sleep => {
                            self.threads[m] = Thread::Asleep;
                            self.count("sleep");
                        }
                        Next::End => panic!("nobody asked the threads to end"),
                    },
                }
            }
            Thread::Running(gp) => {
                assert_eq!(self.rt.gs[gp].atomicstatus, GRUNNING);
                let t = &mut self.tls[m];
                self.threads[m] = Thread::Searching;
                match self.rng.next_usize(6) {
                    0 => {
                        self.rt.gosched_m(t, m, gp);
                        self.count("yield");
                    }
                    1 => {
                        self.rt.preemptm(t, m, gp);
                        self.count("preempt");
                    }
                    2 => {
                        self.rt.gopark(gp, WaitReason::IOWait);
                        self.rt.park_fn(t, m, gp);
                        self.count("park");
                    }
                    3 => {
                        self.rt.goexit(t, m, gp);
                        self.count("exit");
                    }
                    4 => {
                        self.rt.entersyscall(t);
                        self.threads[m] = Thread::InCall(gp);
                        self.count("call");
                    }
                    _ => self.threads[m] = Thread::Running(gp),
                }
            }
            Thread::InCall(gp) => {
                if self.rng.next_usize(12) > 0 {
                    return;
                }
                let t = &mut self.tls[m];
                self.threads[m] = match self.rt.exitsyscall(t) {
                    ExitSyscall::Resumed => Thread::Running(gp),
                    // There are as many processors as threads.
                    ExitSyscall::Sleep => panic!("there must be a processor"),
                };
            }
        }
    }

    /// Every runnable goroutine but the one in `hand` is on one queue, once; no
    /// other goroutine is on any.  Every processor has one holder.
    fn check(&mut self, hand: Option<usize>) {
        let mut global = Vec::new();
        while let Some(g) = self.rt.global_run_q.pop() {
            global.push(g);
        }
        self.rt.global_run_q.push_batch(&global);
        let mut queued = vec![0; self.rt.gs.len()];
        for g in global {
            queued[g] += 1;
        }
        for p in &self.rt.ps {
            let mut at = p.runqhead;
            while at != p.runqtail {
                queued[p.runq[(at % 256) as usize]] += 1;
                at = at.wrapping_add(1);
            }
            if let Some(g) = p.runnext {
                queued[g] += 1;
            }
        }
        for (g, n) in queued.iter().enumerate() {
            let runnable = readgstatus(&self.rt.gs[g]) == GRUNNABLE && hand != Some(g);
            assert_eq!(*n, runnable as usize, "goroutine {g}");
        }
        for (m, x) in self.rt.ms.iter().enumerate() {
            if let Some(p) = x.p {
                assert_eq!(self.rt.ps[p].status, PRUNNING);
                assert_eq!(self.rt.ps[p].m, Some(m));
            }
        }
        for (p, x) in self.rt.ps.iter().enumerate() {
            if x.status == PRUNNING {
                assert_eq!(self.rt.ms[x.m.expect("a holder")].p, Some(p));
            }
        }
        for p in &self.rt.idle_p {
            assert_eq!(self.rt.ps[*p].status, PIDLE);
        }
        for m in &self.rt.idle_m {
            assert_eq!(self.rt.ms[*m].p, None);
        }
    }
}

fn long_run(procs: usize, seed: u64) -> HashMap<&'static str, usize> {
    let mut x = Machine::new(procs, seed);
    for _ in 0..20_000 {
        match x.rng.next_usize(100) {
            0..=7 => x.spawn(),
            8..=19 => x.ready_one(),
            20 => x.resize(),
            21..=28 => x.monitor(),
            _ => x.turn(),
        }
        x.check(None);
    }
    x.steps
}

#[test]
fn scheduler_stays_in_order() {
    let mut all: HashMap<&'static str, usize> = HashMap::new();
    for seed in 0..6 {
        for (what, n) in long_run(1 + seed as usize % 4, seed) {
            *all.entry(what).or_insert(0) += n;
        }
    }
    for what in [
        "spawn", "ready", "resize", "retake", "wake", "sleep", "execute", "yield", "preempt",
        "park", "exit", "call",
    ] {
        assert!(all.contains_key(what), "{what} never happened");
    }
}
