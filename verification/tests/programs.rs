//! Whole programs of goroutines, run on the scheduler's state.
//!
//! A goroutine is a future; a thread that executes it polls it until it yields,
//! parks or ends, and then does to the scheduler what that calls for.

use std::cell::{Cell, RefCell};
use std::collections::HashMap;
use std::future::{poll_fn, Future};
use std::pin::Pin;
use std::rc::Rc;
use std::sync::Arc;
use std::task::{Context, Poll, Wake, Waker};

use go_lib::chan::{Chans, Receiver, Sender};
use go_lib::runtime::g::{Stack, G, GDEAD, GRUNNING};
use go_lib::runtime::m::Tls;
use go_lib::runtime::panics::{run_result, Payload};
use go_lib::runtime::preempt::{sigurg_handler, Interrupted, SignalAction};
use go_lib::runtime::procs::{schedinit, Config};
use go_lib::runtime::run::{Arch, Entry, Next};
use go_lib::runtime::sched::Rt;
use go_lib::runtime::stack::G0_STACK_BYTES;
use go_lib::runtime::time::{
    fire_expired, next_wake, sleep, SleepStep, TimerShard, NO_TIMER, TIMER_SHARDS,
};
use go_lib::scope::{join_finish, scope, JoinStep, Scope, ScopeStep, ScopedJoinHandle};
use go_lib::select::{
    recv_case_of, selectgo, selectgo_finish, send_case_of, SCase, SelectStep, CASE_DEFAULT,
};
use go_lib::sync::waitgroup::WaitStep;
use go_lib::sync::{Cond, WaitGroup};

const STACK_BYTES: u64 = 32 * 1024;
const MS: u64 = 1_000_000;

/// What goroutines send to each other.
#[derive(Clone, Debug, PartialEq)]
enum Val {
    Unit,
    Int(i64),
    Text(String),
}

impl Val {
    fn number(&self) -> i64 {
        match self {
            Val::Int(n) => *n,
            other => panic!("not a number: {other:?}"),
        }
    }
}

/// What the goroutine that was just polled wants.
#[derive(Clone, Copy, PartialEq)]
enum Wish {
    Yield,
    Preempt,
    Park,
}

#[derive(Clone, Copy, PartialEq)]
enum Thread {
    Searching,
    Asleep,
    Running(usize),
}

type Task = Pin<Box<dyn Future<Output = ()>>>;

struct World {
    rt: Rt,
    chans: Chans<Val>,
    results: Chans<Result<Val, Payload>>,
    groups: Vec<WaitGroup>,
    conds: Vec<Cond>,
    scopes: Vec<Scope>,
    shards: Vec<TimerShard>,
    now: u64,
    threads: Vec<Thread>,
    tls: Vec<Tls>,
    tasks: HashMap<usize, Task>,
    starting: Vec<(usize, Task)>,
    next_stack: u64,
    current: (usize, usize),
    wish: Option<Wish>,
    max_locks: i32,
}

const CONDS: usize = 1_000_000;
const SCOPES: usize = 2_000_000;

#[derive(Clone)]
struct W(Rc<RefCell<World>>);

struct Nobody;

impl Wake for Nobody {
    fn wake(self: Arc<Self>) {}
}

impl World {
    fn new(procs: usize) -> World {
        let stacks: Vec<Stack> = (0..procs as u64)
            .map(|i| {
                let lo = 0x1000_0000 + (i << 20);
                Stack { lo, hi: lo + G0_STACK_BYTES }
            })
            .collect();
        let config = Config { gpool_off: false, debug: true, stack_bytes: STACK_BYTES };
        let mut w = World {
            rt: schedinit(procs as i32, &stacks, config),
            chans: Chans::new(procs),
            results: Chans::new(procs),
            groups: Vec::new(),
            conds: Vec::new(),
            scopes: Vec::new(),
            shards: (0..TIMER_SHARDS).map(|_| TimerShard::new()).collect(),
            now: 0,
            threads: vec![Thread::Searching; procs],
            tls: Vec::new(),
            tasks: HashMap::new(),
            starting: Vec::new(),
            next_stack: 0x1_0000_0000,
            current: (0, 0),
            wish: None,
            max_locks: 0,
        };
        for m in 0..procs {
            let mut tls = Tls::new();
            tls.start(m, &mut w.rt.ms[m], 100 + m as u64);
            w.tls.push(tls);
        }
        w
    }

    fn fresh_stack(&mut self) -> Option<Stack> {
        if self.rt.needs_stack() {
            let lo = self.next_stack;
            self.next_stack += 1 << 20;
            Some(Stack { lo, hi: lo + STACK_BYTES })
        } else {
            None
        }
    }

    fn entry() -> Entry {
        Entry { entry_pc: 0x40_1000, exit_pc: 0x40_2000, arch: Arch::X86_64 }
    }

    fn spawn(&mut self, task: Task) -> usize {
        let fresh = self.fresh_stack();
        let (gp, _) = self.rt.spawn_goroutine(1, World::entry(), fresh);
        self.starting.push((gp, task));
        gp
    }

    fn p_id(&self) -> Option<i32> {
        self.rt.ms[self.current.0].p.map(|p| self.rt.ps[p].id)
    }
}

/// Lets thread `m` do one thing; says whether there was anything to do.
fn turn(w: &W, m: usize) -> bool {
    let state = w.0.borrow().threads[m];
    match state {
        Thread::Asleep => {
            let mut x = w.0.borrow_mut();
            if x.rt.ms[m].park_m() {
                x.threads[m] = Thread::Searching;
                true
            } else {
                false
            }
        }
        Thread::Searching => {
            let mut guard = w.0.borrow_mut();
            let x = &mut *guard;
            match x.rt.schedule(m) {
                Some(gp) => {
                    x.rt.execute(&mut x.tls[m], m, gp).expect("a context fit to resume");
                    assert_eq!(x.rt.gs[gp].atomicstatus, GRUNNING);
                    assert_eq!(x.tls[m].current_g(), Some(gp));
                    x.threads[m] = Thread::Running(gp);
                }
                None => match x.rt.after_poll(m) {
                    Next::Search => {}
                    Next::Sleep => x.threads[m] = Thread::Asleep,
                    Next::End => panic!("nobody asked the threads to end"),
                },
            }
            true
        }
        Thread::Running(gp) => {
            let mut task = {
                let mut x = w.0.borrow_mut();
                x.current = (m, gp);
                x.wish = None;
                let locks = x.rt.ms[m].locks;
                x.max_locks = x.max_locks.max(locks);
                x.tasks.remove(&gp).expect("a goroutine with a body")
            };
            let waker = Waker::from(Arc::new(Nobody));
            let polled = task.as_mut().poll(&mut Context::from_waker(&waker));
            let mut guard = w.0.borrow_mut();
            let x = &mut *guard;
            match polled {
                Poll::Ready(()) => {
                    let gone = x.rt.goexit(&mut x.tls[m], m, gp);
                    assert_eq!(gone, None);
                    assert_eq!(x.rt.gs[gp].atomicstatus, GDEAD);
                }
                Poll::Pending => {
                    x.tasks.insert(gp, task);
                    match x.wish.take().expect("a reason to stop") {
                        Wish::Yield => x.rt.gosched_m(&mut x.tls[m], m, gp),
                        Wish::Preempt => x.rt.preemptm(&mut x.tls[m], m, gp),
                        Wish::Park => {
                            if let Some(unlock) = x.rt.park_fn(&mut x.tls[m], m, gp) {
                                let World { rt, groups, conds, scopes, .. } = x;
                                if unlock.lock >= SCOPES {
                                    scopes[unlock.lock - SCOPES].wg.parked(rt);
                                } else if unlock.lock >= CONDS {
                                    conds[unlock.lock - CONDS].parked(rt);
                                } else {
                                    groups[unlock.lock].parked(rt);
                                }
                            }
                        }
                    }
                }
            }
            for (gp, task) in x.starting.drain(..) {
                x.tasks.insert(gp, task);
            }
            x.threads[m] = Thread::Searching;
            true
        }
    }
}

/// Runs a program on `procs` processors until its first goroutine ends.
fn run_on<T: 'static, F: Future<Output = T> + 'static>(
    procs: usize,
    main: impl FnOnce(W) -> F,
) -> (T, W) {
    let w = W(Rc::new(RefCell::new(World::new(procs))));
    let value = run_more(&w, main);
    (value, w)
}

fn run_more<T: 'static, F: Future<Output = T> + 'static>(w: &W, main: impl FnOnce(W) -> F) -> T {
    let slot: Rc<RefCell<Option<Result<T, Payload>>>> = Rc::new(RefCell::new(None));
    let slot2 = Rc::clone(&slot);
    let body = main(w.clone());
    {
        let mut x = w.0.borrow_mut();
        x.spawn(Box::pin(async move {
            let value = body.await;
            *slot2.borrow_mut() = Some(Ok(value));
        }));
        let starting: Vec<(usize, Task)> = x.starting.drain(..).collect();
        x.tasks.extend(starting);
    }
    while slot.borrow().is_none() {
        let threads = w.0.borrow().threads.len();
        let mut busy = false;
        for m in 0..threads {
            busy |= turn(w, m);
        }
        let mut guard = w.0.borrow_mut();
        let x = &mut *guard;
        x.now += 1_000;
        let next = next_wake(&x.shards);
        if !busy {
            assert_ne!(next, NO_TIMER, "every goroutine waits for another");
            x.now = x.now.max(next);
        }
        if next <= x.now {
            let _ = fire_expired(&mut x.shards, &mut x.rt, x.now);
        }
    }
    let done = slot.borrow_mut().take();
    run_result(done).expect("the first goroutine's value")
}

fn run_impl<T: 'static, F: Future<Output = T> + 'static>(main: impl FnOnce(W) -> F) -> T {
    run_on(3, main).0
}

impl W {
    fn go<F: Future<Output = ()> + 'static>(&self, body: F) {
        self.0.borrow_mut().spawn(Box::pin(body));
    }

    fn chan(&self, cap: usize) -> (Sender, Receiver) {
        self.0.borrow_mut().chans.chan(cap)
    }

    fn close(&self, tx: Sender) {
        let mut guard = self.0.borrow_mut();
        let x = &mut *guard;
        let woken = x.chans.close(&mut x.rt.gs, tx.chan);
        x.rt.ready_all(Some(x.current.0), &woken);
    }

    fn group(&self) -> usize {
        let mut x = self.0.borrow_mut();
        x.groups.push(WaitGroup::new());
        x.groups.len() - 1
    }

    fn add(&self, wg: usize, delta: i64) -> bool {
        let mut guard = self.0.borrow_mut();
        let x = &mut *guard;
        let m = x.current.0;
        x.groups[wg].add(&mut x.rt, Some(m), delta)
    }

    fn done(&self, wg: usize) -> bool {
        let mut guard = self.0.borrow_mut();
        let x = &mut *guard;
        let m = x.current.0;
        x.groups[wg].done(&mut x.rt, Some(m))
    }

    fn cond(&self) -> usize {
        let mut x = self.0.borrow_mut();
        x.conds.push(Cond::new());
        x.conds.len() - 1
    }

    fn notify_one(&self, c: usize) -> Option<usize> {
        let mut guard = self.0.borrow_mut();
        let x = &mut *guard;
        let m = x.current.0;
        x.conds[c].notify_one(&mut x.rt, Some(m))
    }

    fn notify_all(&self, c: usize) {
        let mut guard = self.0.borrow_mut();
        let x = &mut *guard;
        let m = x.current.0;
        x.conds[c].notify_all(&mut x.rt, Some(m));
    }

    fn now(&self) -> u64 {
        self.0.borrow().now
    }

    /// Stops once, for the reason given.
    async fn stop(&self, wish: Wish) {
        let mut stopped = false;
        poll_fn(|_| {
            if stopped {
                Poll::Ready(())
            } else {
                stopped = true;
                self.0.borrow_mut().wish = Some(wish);
                Poll::Pending
            }
        })
        .await
    }

    async fn gosched(&self) {
        self.stop(Wish::Yield).await
    }

    async fn preempted(&self) {
        self.stop(Wish::Preempt).await
    }

    async fn select(&self, cases: Vec<SCase<Val>>, has_default: bool) -> (usize, bool, Vec<SCase<Val>>) {
        let mut cases = cases;
        let step = {
            let mut guard = self.0.borrow_mut();
            let x = &mut *guard;
            let (m, gp) = x.current;
            selectgo(&mut x.chans, &mut x.rt, Some(m), Some(gp), &mut cases, has_default)
        };
        match step {
            SelectStep::Chosen { index, ok, retry } => {
                assert_eq!(retry, None);
                (index, ok, cases)
            }
            SelectStep::ClosedSend => panic!("send on closed channel"),
            SelectStep::Park => {
                self.stop(Wish::Park).await;
                let mut guard = self.0.borrow_mut();
                let x = &mut *guard;
                let (m, gp) = x.current;
                let (index, ok) =
                    selectgo_finish(&mut x.chans, &mut x.rt, Some(m), gp, &mut cases);
                (index, ok, cases)
            }
        }
    }

    async fn send(&self, tx: Sender, val: Val) {
        let (index, _, _) = self.select(vec![send_case_of(&tx, val)], false).await;
        assert_eq!(index, 0);
    }

    async fn recv(&self, rx: Receiver) -> Option<Val> {
        let (_, ok, mut cases) = self.select(vec![recv_case_of(&rx, None)], false).await;
        let got = cases.pop().and_then(|c| c.elem);
        assert_eq!(ok, got.is_some());
        got
    }

    async fn wait(&self, wg: usize) {
        let step = {
            let mut guard = self.0.borrow_mut();
            let x = &mut *guard;
            let runs = Some(x.current);
            x.groups[wg].wait(&mut x.rt, runs, wg)
        };
        match step {
            WaitStep::Done => {}
            WaitStep::Park => self.stop(Wish::Park).await,
            WaitStep::Sleep => unreachable!(),
        }
    }

    async fn cond_wait(&self, c: usize) {
        {
            let mut guard = self.0.borrow_mut();
            let x = &mut *guard;
            let (m, gp) = x.current;
            x.conds[c].wait(&mut x.rt, m, gp, CONDS + c);
        }
        self.stop(Wish::Park).await
    }

    async fn sleep(&self, ns: u64) {
        let step = {
            let mut guard = self.0.borrow_mut();
            let x = &mut *guard;
            let (gp, id, now) = (x.current.1, x.p_id(), x.now);
            sleep(&mut x.shards, &mut x.rt, gp, id, now, ns)
        };
        match step {
            SleepStep::Yield => self.stop(Wish::Yield).await,
            SleepStep::Park { .. } => self.stop(Wish::Park).await,
        }
    }

    fn open_scope(&self) -> usize {
        let mut x = self.0.borrow_mut();
        x.scopes.push(Scope::new());
        x.scopes.len() - 1
    }

    fn spawn_in<F>(&self, s: usize, body: F) -> ScopedJoinHandle
    where
        F: Future<Output = Result<Val, Payload>> + 'static,
    {
        let mut guard = self.0.borrow_mut();
        let x = &mut *guard;
        let fresh = x.fresh_stack();
        let m = x.current.0;
        let spawned =
            x.scopes[s].spawn(&mut x.results, &mut x.rt, Some(m), 1, World::entry(), fresh);
        let w = self.clone();
        let tx = spawned.tx;
        let task: Task = Box::pin(async move {
            let result = body.await;
            let mut guard = w.0.borrow_mut();
            let x = &mut *guard;
            let m = x.current.0;
            let (_, retry) = x.scopes[s].finish(&mut x.results, &mut x.rt, Some(m), tx, result);
            assert_eq!(retry, None);
        });
        x.starting.push((spawned.gp, task));
        spawned.handle
    }

    async fn join(&self, handle: ScopedJoinHandle) -> Result<Val, Payload> {
        let step = {
            let mut guard = self.0.borrow_mut();
            let x = &mut *guard;
            let (m, gp) = x.current;
            handle.join(&mut x.results, &mut x.rt, Some(m), gp)
        };
        match step {
            JoinStep::Ready { result, retry } => {
                assert_eq!(retry, None);
                result
            }
            JoinStep::Park(cases) => {
                self.stop(Wish::Park).await;
                let mut guard = self.0.borrow_mut();
                let x = &mut *guard;
                let (m, gp) = x.current;
                join_finish(&mut x.results, &mut x.rt, Some(m), gp, cases)
            }
        }
    }

    async fn leave_scope(&self, s: usize, outer: Result<Val, Payload>) -> Result<Val, Payload> {
        let mut outer = outer;
        loop {
            let step = {
                let mut guard = self.0.borrow_mut();
                let x = &mut *guard;
                let runs = Some(x.current);
                scope(&mut x.scopes[s], &mut x.rt, runs, SCOPES + s, outer)
            };
            match step {
                ScopeStep::Return(v) => return Ok(v),
                ScopeStep::Panic(p) => return Err(p),
                ScopeStep::Wait(WaitStep::Park, kept) => {
                    self.stop(Wish::Park).await;
                    outer = kept;
                }
                ScopeStep::Wait(..) => unreachable!(),
            }
        }
    }
}

fn good(r: Result<Val, Payload>) -> i64 {
    match r {
        Ok(v) => v.number(),
        Err(_) => panic!("a goroutine panicked"),
    }
}

#[test]
fn run_single_goroutine() {
    let ran = Rc::new(Cell::new(false));
    let ran2 = Rc::clone(&ran);
    run_impl(|_| async move { ran2.set(true) });
    assert!(ran.get(), "goroutine body did not execute");
}

#[test]
fn run_second_goroutine() {
    let count = Rc::new(Cell::new(0));
    let (c1, c2) = (Rc::clone(&count), Rc::clone(&count));
    let ((), w) = run_on(3, |_| async move { c1.set(c1.get() + 1) });
    run_more(&w, |_| async move { c2.set(c2.get() + 1) });
    assert_eq!(count.get(), 2);
}

#[test]
fn gosched_returns_to_caller() {
    let after_yield = Rc::new(Cell::new(false));
    let after = Rc::clone(&after_yield);
    run_impl(|w| async move {
        w.gosched().await;
        after.set(true);
    });
    assert!(after_yield.get(), "execution must continue after gosched()");
}

#[test]
fn gosched_allows_other_goroutines_to_run() {
    let (_, w) = run_on(1, |w| async move {
        let flag = Rc::new(Cell::new(false));
        let setter = Rc::clone(&flag);
        w.go(async move { setter.set(true) });
        while !flag.get() {
            w.gosched().await;
        }
    });
    assert_eq!(w.0.borrow().rt.ms.len(), 1);
}

#[test]
fn goready_pushes_to_global_queue() {
    let ran = Rc::new(Cell::new(false));
    let (ran2, ran3) = (Rc::clone(&ran), Rc::clone(&ran));
    run_impl(|w| async move {
        w.go(async move { ran2.set(true) });
        while !ran3.get() {
            w.gosched().await;
        }
    });
    assert!(ran.get(), "goroutine should have run via goready path");
}

#[test]
fn goroutine_exit_releases_m_locks() {
    const N: usize = 64;
    let (_, w) = run_on(3, |w| async move {
        for _ in 0..2 {
            let exited = Rc::new(Cell::new(0));
            for _ in 0..N {
                let exited = Rc::clone(&exited);
                w.go(async move { exited.set(exited.get() + 1) });
            }
            while exited.get() < N {
                w.gosched().await;
            }
        }
    });
    // The greatest count of locks that a goroutine found on its thread.
    assert_eq!(w.0.borrow().max_locks, 0);
}

#[test]
fn m_lock_pins_current_m_under_load() {
    const N: usize = 128;
    const ROUNDS: usize = 2_000;
    let violations = run_impl(|w| async move {
        let violations = Rc::new(Cell::new(0));
        let done = Rc::new(Cell::new(0));
        for _ in 0..N {
            let (v, d, w2) = (Rc::clone(&violations), Rc::clone(&done), w.clone());
            w.go(async move {
                for _ in 0..ROUNDS {
                    {
                        let mut guard = w2.0.borrow_mut();
                        let x = &mut *guard;
                        let (pinned, gp) = x.current;
                        x.rt.ms[pinned].lock();
                        x.rt.gs[gp].preempt = true;
                        let at = Interrupted {
                            locks: Some(x.rt.ms[pinned].locks),
                            pc: 0x40_1800,
                            sp: x.rt.gs[gp].stack.hi - 512,
                            anchor: 0x40_1000,
                        };
                        let g: &G = &x.rt.gs[gp];
                        if sigurg_handler(Some(g), at, &Vec::new()) == SignalAction::Redirect {
                            v.set(v.get() + 1);
                        }
                        x.rt.gs[gp].preempt = false;
                        x.rt.ms[pinned].unlock();
                    }
                    w2.gosched().await;
                }
                d.set(d.get() + 1);
            });
        }
        while done.get() < N {
            w.gosched().await;
        }
        violations.get()
    });
    assert_eq!(violations, 0);
}

#[test]
fn fire_expired_wakes_goroutine() {
    run_impl(|w| async move {
        let t0 = w.now();
        w.sleep(10 * MS).await;
        let elapsed = w.now() - t0;
        assert!(elapsed >= 8 * MS, "timer did not fire: elapsed only {elapsed}");
        assert!(elapsed >= 10 * MS);
    });
}

#[test]
fn sleep_zero_yields() {
    run_impl(|w| async move {
        w.sleep(0).await;
        assert!(w.now() < MS);
    });
}

#[test]
fn sleep_short_duration() {
    run_impl(|w| async move {
        let wg = w.group();
        w.add(wg, 1);
        let w2 = w.clone();
        w.go(async move {
            w2.sleep(5 * MS).await;
            w2.done(wg);
        });
        w.wait(wg).await;
        assert!(w.now() >= 5 * MS);
    });
}

#[test]
fn many_sleepers_across_shards() {
    const N: i32 = 200;
    let awoke = run_impl(|w| async move {
        let awoke = Rc::new(Cell::new(0));
        let wg = w.group();
        for k in 0..N {
            let (a, w2) = (Rc::clone(&awoke), w.clone());
            w.add(wg, 1);
            w.go(async move {
                let t0 = w2.now();
                let ns = (5 + (k % 7) as u64) * MS;
                w2.sleep(ns).await;
                assert!(w2.now() - t0 >= ns);
                a.set(a.get() + 1);
                w2.done(wg);
            });
        }
        w.wait(wg).await;
        awoke.get()
    });
    assert_eq!(awoke, N);
}

#[test]
fn concurrent_sleepers() {
    const N: i32 = 4;
    let awoke = run_impl(|w| async move {
        let awoke = Rc::new(Cell::new(0));
        let wg = w.group();
        for _ in 0..N {
            let (a, w2) = (Rc::clone(&awoke), w.clone());
            w.add(wg, 1);
            w.go(async move {
                w2.sleep(10 * MS).await;
                a.set(a.get() + 1);
                w2.done(wg);
            });
        }
        w.wait(wg).await;
        awoke.get()
    });
    assert_eq!(awoke, N);
}

#[test]
fn sleep_completes() {
    run_impl(|w| async move {
        let elapsed = Rc::new(Cell::new(0));
        let (e2, w2) = (Rc::clone(&elapsed), w.clone());
        let wg = w.group();
        w.add(wg, 1);
        w.go(async move {
            let t0 = w2.now();
            w2.sleep(10 * MS).await;
            e2.set((w2.now() - t0) / MS);
            w2.done(wg);
        });
        w.wait(wg).await;
        assert!(elapsed.get() >= 8, "slept too short: {} ms", elapsed.get());
    });
}

#[test]
fn fast_recv_buffered() {
    run_impl(|w| async move {
        let (tx, rx) = w.chan(4);
        w.send(tx, Val::Int(42)).await;
        let (idx, ok, cases) = w.select(vec![recv_case_of(&rx, None)], true).await;
        assert_eq!(idx, 0, "should pick recv case");
        assert!(ok, "should be ok (not closed)");
        assert_eq!(cases[0].elem, Some(Val::Int(42)));
    });
}

#[test]
fn fast_send_buffered() {
    run_impl(|w| async move {
        let (tx, rx) = w.chan(4);
        let (idx, ok, _) = w.select(vec![send_case_of(&tx, Val::Int(99))], true).await;
        assert_eq!(idx, 0);
        assert!(ok, "buffered send completes with ok=true");
        assert_eq!(w.recv(rx).await, Some(Val::Int(99)));
    });
}

#[test]
fn default_taken_when_not_ready() {
    run_impl(|w| async move {
        let (_tx, rx) = w.chan(0);
        let (idx, ok, cases) = w.select(vec![recv_case_of(&rx, None)], true).await;
        assert_eq!(idx, CASE_DEFAULT);
        assert!(!ok);
        assert_eq!(cases[0].elem, None);
    });
}

#[test]
fn recv_closed_empty() {
    run_impl(|w| async move {
        let (tx, rx) = w.chan(0);
        w.close(tx);
        let (idx, ok, _) = w.select(vec![recv_case_of(&rx, None)], false).await;
        assert_eq!(idx, 0);
        assert!(!ok, "recv from closed returns ok=false");
    });
}

#[test]
fn multi_case_first_ready_wins() {
    run_impl(|w| async move {
        let (tx1, rx1) = w.chan(1);
        let (_tx2, rx2) = w.chan(1);
        w.send(tx1, Val::Int(7)).await;
        let cases = vec![recv_case_of(&rx1, None), recv_case_of(&rx2, None)];
        let (idx, ok, cases) = w.select(cases, false).await;
        assert_eq!(idx, 0);
        assert!(ok);
        assert_eq!(cases[0].elem, Some(Val::Int(7)));
        assert_eq!(cases[1].elem, None);
    });
}

#[test]
fn blocking_recv_unblocked_by_send() {
    let result = run_impl(|w| async move {
        let (tx, rx) = w.chan(0);
        let w2 = w.clone();
        w.go(async move {
            w2.gosched().await;
            w2.send(tx, Val::Int(55)).await;
        });
        let (idx, ok, cases) = w.select(vec![recv_case_of(&rx, None)], false).await;
        assert_eq!(idx, 0);
        assert!(ok);
        cases[0].elem.clone()
    });
    assert_eq!(result, Some(Val::Int(55)));
}

#[test]
fn blocking_send_unblocked_by_recv() {
    run_impl(|w| async move {
        let (tx, rx) = w.chan(0);
        let got = Rc::new(RefCell::new(None));
        let (w2, got2) = (w.clone(), Rc::clone(&got));
        w.go(async move {
            w2.gosched().await;
            let v = w2.recv(rx).await;
            *got2.borrow_mut() = v;
        });
        let (idx, _ok, cases) = w.select(vec![send_case_of(&tx, Val::Int(77))], false).await;
        assert_eq!(idx, 0);
        assert_eq!(cases[0].elem, None);
        while got.borrow().is_none() {
            w.gosched().await;
        }
        assert_eq!(*got.borrow(), Some(Val::Int(77)));
    });
}

#[test]
fn select_race_one_winner() {
    let wins = run_impl(|w| async move {
        let wins = Rc::new(Cell::new(0));
        let (tx, rx) = w.chan(1);
        w.send(tx, Val::Int(1)).await;
        for _ in 0..2 {
            let (wins, w2) = (Rc::clone(&wins), w.clone());
            w.go(async move {
                let (idx, ok, _) = w2.select(vec![recv_case_of(&rx, None)], true).await;
                if idx == 0 && ok {
                    wins.set(wins.get() + 1);
                }
            });
        }
        for _ in 0..200 {
            w.gosched().await;
        }
        wins.get()
    });
    assert_eq!(wins, 1);
}

#[test]
fn single_waiter_notify_one() {
    let woke = run_impl(|w| async move {
        let ready = Rc::new(Cell::new(false));
        let woke = Rc::new(Cell::new(0));
        let c = w.cond();
        let (r2, k2, w2) = (Rc::clone(&ready), Rc::clone(&woke), w.clone());
        w.go(async move {
            while !r2.get() {
                w2.cond_wait(c).await;
            }
            k2.set(k2.get() + 1);
        });
        for _ in 0..20 {
            w.gosched().await;
        }
        ready.set(true);
        assert!(w.notify_one(c).is_some());
        while woke.get() != 1 {
            w.gosched().await;
        }
        woke.get()
    });
    assert_eq!(woke, 1);
}

#[test]
fn multiple_waiters_notify_all() {
    const N: i32 = 4;
    let woke = run_impl(|w| async move {
        let ready = Rc::new(Cell::new(false));
        let woke = Rc::new(Cell::new(0));
        let c = w.cond();
        for _ in 0..N {
            let (r2, k2, w2) = (Rc::clone(&ready), Rc::clone(&woke), w.clone());
            w.go(async move {
                while !r2.get() {
                    w2.cond_wait(c).await;
                }
                k2.set(k2.get() + 1);
            });
        }
        for _ in 0..40 {
            w.gosched().await;
        }
        ready.set(true);
        w.notify_all(c);
        while woke.get() != N {
            w.gosched().await;
        }
        woke.get()
    });
    assert_eq!(woke, N);
}

#[test]
fn single_worker() {
    run_impl(|w| async move {
        let wg = w.group();
        let done = Rc::new(Cell::new(0));
        w.add(wg, 1);
        let (d2, w2) = (Rc::clone(&done), w.clone());
        w.go(async move {
            d2.set(d2.get() + 1);
            w2.done(wg);
        });
        w.wait(wg).await;
        assert_eq!(done.get(), 1);
    });
}

#[test]
fn multiple_workers() {
    const N: i32 = 5;
    let count = run_impl(|w| async move {
        let wg = w.group();
        let count = Rc::new(Cell::new(0));
        for _ in 0..N {
            w.add(wg, 1);
            let (c, w2) = (Rc::clone(&count), w.clone());
            w.go(async move {
                c.set(c.get() + 1);
                w2.done(wg);
            });
        }
        w.wait(wg).await;
        assert_eq!(count.get(), N);
        count.get()
    });
    assert_eq!(count, N);
}

#[test]
fn multiple_waiters() {
    let woke = run_impl(|w| async move {
        let woke = Rc::new(Cell::new(0));
        let wg = w.group();
        w.add(wg, 1);
        for _ in 0..2 {
            let (k, w2) = (Rc::clone(&woke), w.clone());
            w.go(async move {
                w2.wait(wg).await;
                k.set(k.get() + 1);
            });
        }
        for _ in 0..20 {
            w.gosched().await;
        }
        assert_eq!(woke.get(), 0);
        assert!(w.done(wg));
        while woke.get() < 2 {
            w.gosched().await;
        }
        woke.get()
    });
    assert_eq!(woke, 2, "both waiters must wake");
}

#[test]
fn reuse_after_wait() {
    run_impl(|w| async move {
        let wg = w.group();
        w.add(wg, 1);
        let w2 = w.clone();
        w.go(async move {
            w2.done(wg);
        });
        w.wait(wg).await;
        let done = Rc::new(Cell::new(0));
        w.add(wg, 1);
        let (d, w3) = (Rc::clone(&done), w.clone());
        w.go(async move {
            d.set(1);
            w3.done(wg);
        });
        w.wait(wg).await;
        assert_eq!(done.get(), 1);
    });
}

#[test]
fn done_unblocks_wait() {
    run_impl(|w| async move {
        let wg = w.group();
        w.add(wg, 1);
        let w2 = w.clone();
        w.go(async move {
            w2.done(wg);
        });
        w.wait(wg).await;
    });
}

#[test]
fn two_workers_unblock_wait() {
    run_impl(|w| async move {
        let wg = w.group();
        w.add(wg, 2);
        for _ in 0..2 {
            let w2 = w.clone();
            w.go(async move {
                w2.done(wg);
            });
        }
        let waited = Rc::new(Cell::new(false));
        let (waited2, w3) = (Rc::clone(&waited), w.clone());
        w.go(async move {
            w3.wait(wg).await;
            waited2.set(true);
        });
        while !waited.get() {
            w.gosched().await;
        }
        assert_eq!(w.0.borrow().groups[wg].count, 0);
    });
}

#[test]
fn add_and_done_interleave() {
    run_impl(|w| async move {
        let wg = w.group();
        w.add(wg, 1);
        let w2 = w.clone();
        w.go(async move {
            w2.done(wg);
        });
        w.wait(wg).await;
        assert_eq!(w.0.borrow().groups[wg].count, 0);
    });
}

#[test]
fn borrow_local_data() {
    run_impl(|w| async move {
        let data = Rc::new([1_i64, 2, 3, 4, 5]);
        let s = w.open_scope();
        let (d1, d2) = (Rc::clone(&data), Rc::clone(&data));
        let h1 = w.spawn_in(s, async move { Ok(Val::Int(d1[..3].iter().sum::<i64>())) });
        let h2 = w.spawn_in(s, async move { Ok(Val::Int(d2[3..].iter().sum::<i64>())) });
        let sum = good(w.join(h1).await) + good(w.join(h2).await);
        let sum = good(w.leave_scope(s, Ok(Val::Int(sum))).await);
        assert_eq!(sum, 15);
        assert_eq!(data.len(), 5);
    });
}

#[test]
fn fire_and_forget() {
    run_impl(|w| async move {
        let counter = Rc::new(Cell::new(0));
        let s = w.open_scope();
        for _ in 0..8 {
            let (c, w2) = (Rc::clone(&counter), w.clone());
            let _ = w.spawn_in(s, async move {
                w2.gosched().await;
                c.set(c.get() + 1);
                Ok(Val::Unit)
            });
        }
        assert!(w.leave_scope(s, Ok(Val::Unit)).await.is_ok());
        assert_eq!(counter.get(), 8);
    });
}

#[test]
fn goroutine_panic_via_join() {
    run_impl(|w| async move {
        let s = w.open_scope();
        let h = w.spawn_in(s, async move { Err(Payload::Text("scoped panic".to_string())) });
        let result = w.join(h).await;
        assert!(w.leave_scope(s, Ok(Val::Unit)).await.is_ok());
        match result {
            Err(Payload::Text(msg)) => assert_eq!(msg, "scoped panic"),
            _ => panic!("expected Err from a panicking goroutine"),
        }
    });
}

#[test]
fn goroutine_panic_dropped_handle() {
    run_impl(|w| async move {
        let s = w.open_scope();
        let _ = w.spawn_in(s, async move { Err(Payload::Text("silent panic".to_string())) });
        assert!(w.leave_scope(s, Ok(Val::Unit)).await.is_ok());
    });
}

#[test]
fn nested_scopes() {
    run_impl(|w| async move {
        let outer = Rc::new([10_i64, 20, 30]);
        let s_outer = w.open_scope();
        let (w2, o2) = (w.clone(), Rc::clone(&outer));
        let h = w.spawn_in(s_outer, async move {
            let inner = Rc::new([1_i64, 2, 3]);
            let s_inner = w2.open_scope();
            let h1 = w2.spawn_in(s_inner, async move { Ok(Val::Int(inner.iter().sum::<i64>())) });
            let h2 = w2.spawn_in(s_inner, async move { Ok(Val::Int(o2.iter().sum::<i64>())) });
            let total = good(w2.join(h1).await) + good(w2.join(h2).await);
            w2.leave_scope(s_inner, Ok(Val::Int(total))).await
        });
        let total = w.join(h).await;
        let total = good(w.leave_scope(s_outer, total).await);
        assert_eq!(total, 66);
    });
}

#[test]
fn outer_panic_waits_for_goroutines() {
    run_impl(|w| async move {
        let finished = Rc::new(Cell::new(0));
        let s = w.open_scope();
        let (f, w2) = (Rc::clone(&finished), w.clone());
        let _ = w.spawn_in(s, async move {
            w2.gosched().await;
            f.set(f.get() + 1);
            Ok(Val::Unit)
        });
        let outer = Err(Payload::Text("outer panic".to_string()));
        match w.leave_scope(s, outer).await {
            Err(Payload::Text(msg)) => assert_eq!(msg, "outer panic"),
            _ => panic!("the scope must panic as its body did"),
        }
        assert_eq!(finished.get(), 1);
    });
}

#[test]
fn hello_goroutine() {
    run_impl(|w| async move {
        let (tx, rx) = w.chan(0);
        let w2 = w.clone();
        w.go(async move { w2.send(tx, Val::Text("hello".to_string())).await });
        assert_eq!(w.recv(rx).await, Some(Val::Text("hello".to_string())));
    });
}

#[test]
fn fan_out() {
    const N: i64 = 8;
    run_impl(|w| async move {
        let (tx, rx) = w.chan(N as usize);
        for i in 1..=N {
            let w2 = w.clone();
            w.go(async move { w2.send(tx, Val::Int(i)).await });
        }
        let mut total = 0;
        for _ in 0..N {
            total += w.recv(rx).await.unwrap().number();
        }
        assert_eq!(total, N * (N + 1) / 2);
    });
}

#[test]
fn pipeline_three_stage() {
    run_impl(|w| async move {
        let (gen_tx, gen_rx) = w.chan(0);
        let w1 = w.clone();
        w.go(async move {
            for i in 1_i64..=5 {
                w1.send(gen_tx, Val::Int(i)).await;
            }
            w1.close(gen_tx);
        });
        let (sq_tx, sq_rx) = w.chan(0);
        let w2 = w.clone();
        w.go(async move {
            loop {
                match w2.recv(gen_rx).await {
                    Some(v) => w2.send(sq_tx, Val::Int(v.number() * v.number())).await,
                    None => {
                        w2.close(sq_tx);
                        break;
                    }
                }
            }
        });
        let mut sum = 0_i64;
        while let Some(v) = w.recv(sq_rx).await {
            sum += v.number();
        }
        assert_eq!(sum, 55);
    });
}

#[test]
fn waitgroup_fan_out() {
    const N: i32 = 16;
    run_impl(|w| async move {
        let counter = Rc::new(Cell::new(0));
        let wg = w.group();
        for _ in 0..N {
            w.add(wg, 1);
            let (c, w2) = (Rc::clone(&counter), w.clone());
            w.go(async move {
                c.set(c.get() + 1);
                w2.done(wg);
            });
        }
        w.wait(wg).await;
        assert_eq!(counter.get(), N);
    });
}

#[test]
fn ping_pong() {
    run_impl(|w| async move {
        let hops = Rc::new(Cell::new(0));
        let (a_tx, a_rx) = w.chan(0);
        let (b_tx, b_rx) = w.chan(0);
        let w1 = w.clone();
        w.go(async move {
            while let Some(v) = w1.recv(a_rx).await {
                w1.send(b_tx, Val::Int(v.number() + 1)).await;
            }
        });
        let (h, w2) = (Rc::clone(&hops), w.clone());
        w.go(async move {
            while let Some(v) = w2.recv(b_rx).await {
                h.set(h.get() + 1);
                if v.number() < 20 {
                    w2.send(a_tx, Val::Int(v.number() + 1)).await;
                } else {
                    w2.close(a_tx);
                }
            }
        });
        w.send(a_tx, Val::Int(0)).await;
        while hops.get() < 10 {
            w.gosched().await;
        }
        assert!(hops.get() >= 10);
    });
}

#[test]
fn select_fan_in() {
    run_impl(|w| async move {
        let (tx1, rx1) = w.chan(0);
        let (tx2, rx2) = w.chan(0);
        let (w1, w2) = (w.clone(), w.clone());
        w.go(async move { w1.send(tx1, Val::Int(10)).await });
        w.go(async move { w2.send(tx2, Val::Int(20)).await });
        let mut total = 0;
        for _ in 0..2 {
            let cases = vec![recv_case_of(&rx1, None), recv_case_of(&rx2, None)];
            let (i, ok, cases) = w.select(cases, false).await;
            assert!(ok);
            total += cases[i].elem.clone().unwrap().number();
        }
        assert_eq!(total, 30);
    });
}

#[test]
fn done_channel_cancels_goroutine() {
    run_impl(|w| async move {
        let ticks = Rc::new(Cell::new(0));
        let (done_tx, done_rx) = w.chan(0);
        let (tick_tx, tick_rx) = w.chan(4);
        let (t, w2) = (Rc::clone(&ticks), w.clone());
        w.go(async move {
            loop {
                let cases = vec![recv_case_of(&done_rx, None), recv_case_of(&tick_rx, None)];
                match w2.select(cases, true).await.0 {
                    0 => break,
                    1 => t.set(t.get() + 1),
                    _ => w2.gosched().await,
                }
            }
        });
        for _ in 0..3 {
            w.send(tick_tx, Val::Unit).await;
        }
        while ticks.get() < 3 {
            w.gosched().await;
        }
        w.send(done_tx, Val::Unit).await;
        for _ in 0..50 {
            w.gosched().await;
        }
        assert_eq!(ticks.get(), 3);
    });
}

#[test]
fn buffered_never_blocks_sender() {
    const N: usize = 64;
    run_impl(|w| async move {
        let received = Rc::new(Cell::new(0));
        let wg = w.group();
        let (tx, rx) = w.chan(N);
        for i in 0..N as i64 {
            let (idx, ok, _) = w.select(vec![send_case_of(&tx, Val::Int(i))], true).await;
            assert_eq!((idx, ok), (0, true));
        }
        w.add(wg, 1);
        let (r, w2) = (Rc::clone(&received), w.clone());
        w.go(async move {
            let mut count = 0;
            for i in 0..N as i64 {
                assert_eq!(w2.recv(rx).await, Some(Val::Int(i)));
                count += 1;
            }
            r.set(count);
            w2.done(wg);
        });
        w.wait(wg).await;
        assert_eq!(received.get(), N as i32);
    });
}

#[test]
fn select_send_drops_on_full_buffer() {
    run_impl(|w| async move {
        let (tx, rx) = w.chan(1);
        w.send(tx, Val::Text("first".to_string())).await;
        let val = Val::Text("second".to_string());
        let (idx, ok, cases) = w.select(vec![send_case_of(&tx, val)], true).await;
        assert_eq!(idx, CASE_DEFAULT, "buffer was full: default arm should have fired");
        assert!(!ok);
        assert_eq!(cases[0].elem, Some(Val::Text("second".to_string())));
        assert_eq!(w.recv(rx).await, Some(Val::Text("first".to_string())));
    });
}

#[test]
fn waitgroup_reuse() {
    const ROUNDS: i32 = 3;
    const WORKERS: i32 = 4;
    run_impl(|w| async move {
        let total = Rc::new(Cell::new(0));
        let wg = w.group();
        for _round in 0..ROUNDS {
            for _ in 0..WORKERS {
                w.add(wg, 1);
                let (t, w2) = (Rc::clone(&total), w.clone());
                w.go(async move {
                    t.set(t.get() + 1);
                    w2.done(wg);
                });
            }
            w.wait(wg).await;
        }
        assert_eq!(total.get(), ROUNDS * WORKERS);
    });
}

#[test]
fn scope_parallel_reduction() {
    run_impl(|w| async move {
        let data: Rc<Vec<i64>> = Rc::new((1..=100).collect());
        let s = w.open_scope();
        let mid = data.len() / 2;
        let (d1, d2) = (Rc::clone(&data), Rc::clone(&data));
        let h1 = w.spawn_in(s, async move { Ok(Val::Int(d1[..mid].iter().sum::<i64>())) });
        let h2 = w.spawn_in(s, async move { Ok(Val::Int(d2[mid..].iter().sum::<i64>())) });
        let sum = good(w.join(h1).await) + good(w.join(h2).await);
        assert_eq!(good(w.leave_scope(s, Ok(Val::Int(sum))).await), 5050);
    });
}

#[test]
fn scope_goroutine_panic_surfaces_via_join() {
    run_impl(|w| async move {
        let s = w.open_scope();
        let payload = Payload::Text("intentional scope panic".to_string());
        let h = w.spawn_in(s, async move { Err(payload) });
        let result = w.join(h).await;
        assert!(result.is_err(), "expected Err from panicking goroutine");
        assert!(w.leave_scope(s, Ok(Val::Unit)).await.is_ok());
    });
}

#[test]
fn scope_channel_producer_consumer() {
    run_impl(|w| async move {
        let (tx, rx) = w.chan(0);
        let s = w.open_scope();
        let (w1, w2) = (w.clone(), w.clone());
        let _ = w.spawn_in(s, async move {
            for i in 0..10 {
                w1.send(tx, Val::Int(i)).await;
            }
            w1.close(tx);
            Ok(Val::Unit)
        });
        let consumer = w.spawn_in(s, async move {
            let mut total = 0;
            while let Some(v) = w2.recv(rx).await {
                total += v.number();
            }
            Ok(Val::Int(total))
        });
        let sum = w.join(consumer).await;
        assert_eq!(good(w.leave_scope(s, sum).await), 45);
    });
}

#[test]
fn entry_forwards_scalar_return() {
    let sum = run_impl(|w| async move {
        let (tx, rx) = w.chan(4);
        for i in 1..=4 {
            let w2 = w.clone();
            w.go(async move { w2.send(tx, Val::Int(i)).await });
        }
        let mut sum = 0;
        for _ in 0..4 {
            sum += w.recv(rx).await.unwrap().number();
        }
        sum
    });
    assert_eq!(sum, 10);
}

#[test]
fn entry_moves_captures_into_goroutine() {
    run_impl(|w| async move {
        let base = 7;
        let (tx, rx) = w.chan(1);
        let w2 = w.clone();
        w.go(async move { w2.send(tx, Val::Int(base * 2)).await });
        assert_eq!(w.recv(rx).await, Some(Val::Int(14)));
    });
}

#[test]
fn entry_forwards_heap_value() {
    let value = run_impl(|w| async move {
        let (tx, rx) = w.chan(1);
        let w2 = w.clone();
        w.go(async move { w2.send(tx, Val::Text("hello from goroutine".to_string())).await });
        w.recv(rx).await
    });
    assert_eq!(value, Some(Val::Text("hello from goroutine".to_string())));
}

#[test]
fn many_goroutines() {
    const WORKERS: usize = 75_000;
    run_on(4, |w| async move {
        let s = w.open_scope();
        // The triangular numbers, of which each goroutine computes one from the
        // one before.
        let sums = Rc::new(RefCell::new(vec![0_i64; WORKERS]));
        let mut handles = Vec::new();
        for i in 0..WORKERS {
            let sums = Rc::clone(&sums);
            handles.push(w.spawn_in(s, async move {
                let mut sums = sums.borrow_mut();
                let before = if i == 0 { 0 } else { sums[i - 1] };
                let before = if before == 0 { (0..i as i64).sum() } else { before };
                sums[i] = before + i as i64;
                Ok(Val::Int(sums[i]))
            }));
            if i % 32 == 31 {
                w.gosched().await;
            }
        }
        for (i, handle) in handles.into_iter().enumerate() {
            let sum = good(w.join(handle).await);
            let i = i as i64;
            assert_eq!(sum, i * (i + 1) / 2, "goroutine {i}");
        }
        assert!(w.leave_scope(s, Ok(Val::Unit)).await.is_ok());
    });
}

#[test]
fn select_preemption_storm() {
    const WORKERS: i64 = 5_000;
    let (done, _) = run_on(4, |w| async move {
        let done = Rc::new(Cell::new(0_i64));
        let s = w.open_scope();
        for i in 0..WORKERS {
            let (tx, rx) = w.chan(0);
            let (_idle_tx, idle_rx) = w.chan(0);
            let (w1, w2, d) = (w.clone(), w.clone(), Rc::clone(&done));
            let _ = w.spawn_in(s, async move {
                let mut acc = 0_i64;
                for k in 0..=i {
                    acc = acc.wrapping_add(k);
                    if k % 1000 == 999 {
                        w1.preempted().await;
                    }
                }
                w1.send(tx, Val::Int(acc)).await;
                Ok(Val::Unit)
            });
            let _ = w.spawn_in(s, async move {
                let mut acc = 0_i64;
                for k in 0..=i {
                    acc = acc.wrapping_add(k);
                    if k % 700 == 699 {
                        w2.preempted().await;
                    }
                }
                let cases = vec![recv_case_of(&rx, None), recv_case_of(&idle_rx, None)];
                let (idx, ok, cases) = w2.select(cases, false).await;
                assert_eq!((idx, ok), (0, true));
                let got = cases[0].elem.clone().unwrap().number();
                assert_eq!(got, acc, "select worker {i}: wrong value (lost wakeup?)");
                d.set(d.get() + 1);
                Ok(Val::Unit)
            });
            if i % 16 == 15 {
                w.gosched().await;
            }
        }
        assert!(w.leave_scope(s, Ok(Val::Unit)).await.is_ok());
        done.get()
    });
    assert_eq!(done, WORKERS, "every select consumer must complete (no lost wakeups)");
}

#[test]
fn cond_preemption_storm() {
    const WORKERS: i64 = 5_000;
    let (woke, _) = run_on(4, |w| async move {
        let woke = Rc::new(Cell::new(0_i64));
        let s = w.open_scope();
        for i in 0..WORKERS {
            let mu = Rc::new(Cell::new(false));
            let c = w.cond();
            let (w1, w2) = (w.clone(), w.clone());
            let (mu1, mu2, k1) = (Rc::clone(&mu), Rc::clone(&mu), Rc::clone(&woke));
            let _ = w.spawn_in(s, async move {
                for k in 0..=(i % 512) {
                    if k % 200 == 199 {
                        w1.preempted().await;
                    }
                }
                while !mu1.get() {
                    w1.cond_wait(c).await;
                }
                k1.set(k1.get() + 1);
                Ok(Val::Unit)
            });
            let _ = w.spawn_in(s, async move {
                for k in 0..=(i % 512) {
                    if k % 300 == 299 {
                        w2.preempted().await;
                    }
                }
                mu2.set(true);
                w2.notify_one(c);
                Ok(Val::Unit)
            });
            if i % 16 == 15 {
                w.gosched().await;
            }
        }
        assert!(w.leave_scope(s, Ok(Val::Unit)).await.is_ok());
        woke.get()
    });
    assert_eq!(woke, WORKERS, "every cond waiter must wake (no lost wakeups)");
}
