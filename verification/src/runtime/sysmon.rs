//! The monitor: takes processors back from long system calls and asks
//! goroutines that run for long to yield.

use vstd::prelude::*;

use super::g::{G, STACK_PREEMPT};
use super::m::M;
use super::p::{PView, PIDLE, PRUNNING, PSYSCALL};
use super::sched::{m_names, p_names, Rt, RtView};

verus! {

/// Shortest pause of the monitor, in microseconds.
pub const MIN_SLEEP_US: u64 = 20;

/// Longest pause of the monitor, in microseconds.
pub const MAX_SLEEP_US: u64 = 10_000;

/// After this many rounds without action the pauses grow.
pub const IDLE_THRESH: u64 = 50;

/// A goroutine that runs longer than this is asked to yield, in nanoseconds.
pub const FORCE_PREEMPT_NS: u64 = 10_000_000;

/// A system call shorter than this keeps its processor, in nanoseconds.
pub const FORCE_RETAKE_NS: u64 = 20_000;

/// A system call longer than this loses its processor in any case, in
/// nanoseconds.
pub const LONG_RETAKE_NS: u64 = 10_000_000;

/// What the monitor saw of a processor, and when that was new.
#[derive(Copy, Clone, Debug, PartialEq, Eq, Structural)]
pub struct SysmonTick {
    pub schedtick: u32,
    pub schedwhen: u64,
    pub syscalltick: u32,
    pub syscallwhen: u64,
}

impl Default for SysmonTick {
    fn default() -> (t: Self)
        ensures
            t == (SysmonTick { schedtick: 0, schedwhen: 0, syscalltick: 0, syscallwhen: 0 }),
    {
        SysmonTick { schedtick: 0, schedwhen: 0, syscalltick: 0, syscallwhen: 0 }
    }
}

/// The time from `then` to `now`; none if `then` is not past.
pub open spec fn elapsed(now: u64, then: u64) -> int {
    if now >= then {
        now - then
    } else {
        0
    }
}

/// The monitor's next pause.
pub open spec fn backoff(delay_us: int, idle: int) -> int {
    if idle == 0 {
        20
    } else if idle > 50 {
        if delay_us * 2 <= 10_000 {
            delay_us * 2
        } else {
            10_000
        }
    } else {
        delay_us
    }
}

/// Decides how long the monitor pauses, after `idle` rounds without action.
pub fn next_delay(delay_us: u64, idle: u64) -> (d: u64)
    requires
        delay_us <= MAX_SLEEP_US,
    ensures
        d == backoff(delay_us as int, idle as int),
        d <= MAX_SLEEP_US,
{
    if idle == 0 {
        MIN_SLEEP_US
    } else if idle > IDLE_THRESH {
        let twice: u64 = delay_us * 2;
        if twice <= MAX_SLEEP_US {
            twice
        } else {
            MAX_SLEEP_US
        }
    } else {
        delay_us
    }
}

/// Counts the rounds without action.
pub fn next_idle(acted: u32, idle: u64) -> (n: u64)
    requires
        idle < u64::MAX,
    ensures
        n == (if acted != 0 {
            0
        } else {
            idle + 1
        }),
{
    if acted != 0 {
        0
    } else {
        idle + 1
    }
}

impl RtView {
    /// The goroutine that runs on processor `p`.
    pub open spec fn running_on(self, p: int) -> Option<usize> {
        match self.ps[p].m {
            None => None,
            Some(m) => self.ms[m as int].curg,
        }
    }

    /// The thread to which a signal can be sent for the goroutine on
    /// processor `p`.
    pub open spec fn signal_target(self, p: int) -> Option<u64> {
        if self.running_on(p) is Some && self.ms[self.ps[p].m->0 as int].pthread_id != 0 {
            Some(self.ms[self.ps[p].m->0 as int].pthread_id)
        } else {
            None
        }
    }

    /// The state after the goroutine on processor `p`, if any, was asked to
    /// yield.
    pub open spec fn preempted(self, p: int) -> RtView {
        match self.running_on(p) {
            None => self,
            Some(g) => self.with_g(
                g as int,
                G { preempt: true, stackguard0: STACK_PREEMPT, ..self.gs[g as int] },
            ),
        }
    }

    /// What the monitor does about processor `p`.
    pub open spec fn verdict(self, p: int, tick: SysmonTick, now: u64) -> Verdict {
        let x = self.ps[p];
        if x.status == PRUNNING {
            if tick.schedtick != x.schedtick {
                Verdict::Note
            } else if elapsed(now, tick.schedwhen) > FORCE_PREEMPT_NS {
                Verdict::Preempt
            } else {
                Verdict::Leave
            }
        } else if x.status == PSYSCALL {
            let e = elapsed(now, tick.syscallwhen);
            if tick.syscalltick != x.syscalltick {
                Verdict::Note
            } else if e < FORCE_RETAKE_NS {
                Verdict::Leave
            } else if x.size() == 0 && e < LONG_RETAKE_NS && (self.nmspinning
                + self.idle_m.len() > 0) {
                Verdict::Leave
            } else {
                Verdict::Retake
            }
        } else {
            Verdict::Leave
        }
    }

    /// The record of processor `p` after a verdict.
    pub open spec fn noted(self, p: int, tick: SysmonTick, now: u64) -> SysmonTick {
        if self.verdict(p, tick, now) is Note {
            if self.ps[p].status == PRUNNING {
                SysmonTick { schedtick: self.ps[p].schedtick, schedwhen: now, ..tick }
            } else {
                SysmonTick { syscalltick: self.ps[p].syscalltick, syscallwhen: now, ..tick }
            }
        } else {
            tick
        }
    }

    /// The state after processor `p` was taken from a system call and handed on.
    pub open spec fn retaken(self, p: int) -> RtView {
        self.with_p(
            p,
            PView {
                status: PIDLE,
                m: None,
                syscalltick: self.ps[p].syscalltick.wrapping_add(1),
                ..self.ps[p]
            },
        ).started(Some(p as usize))
    }

    /// The state after a verdict on processor `p`.
    pub open spec fn judged(self, p: int, tick: SysmonTick, now: u64) -> RtView {
        match self.verdict(p, tick, now) {
            Verdict::Preempt => self.preempted(p),
            Verdict::Retake => self.retaken(p),
            _ => self,
        }
    }
}

/// What the monitor does about a processor.
#[derive(Copy, Clone, Debug, PartialEq, Eq, Structural)]
pub enum Verdict {
    /// Nothing.
    Leave,
    /// It notes that the processor has moved on.
    Note,
    /// It asks the goroutine that runs there to yield.
    Preempt,
    /// It takes the processor away from a system call.
    Retake,
}

/// A round of the monitor, as far as it has come.
#[verifier::ext_equal]
pub struct Round {
    pub rt: RtView,
    pub ticks: Seq<SysmonTick>,
    pub acted: nat,
    pub threads: Seq<u64>,
}

/// The records, with one for each processor.  Those that are new count from
/// `now` on.
pub open spec fn extended(ticks: Seq<SysmonTick>, n: nat, now: u64) -> Seq<SysmonTick> {
    if ticks.len() < n {
        ticks + Seq::new(
            (n - ticks.len()) as nat,
            |i: int|
                SysmonTick { schedtick: 0, schedwhen: now, syscalltick: 0, syscallwhen: now },
        )
    } else {
        ticks
    }
}

/// The round after the first `n` processors.
pub open spec fn round(rt: RtView, ticks: Seq<SysmonTick>, now: u64, n: nat) -> Round
    decreases n,
{
    if n == 0 {
        Round { rt, ticks, acted: 0, threads: Seq::empty() }
    } else {
        let r = round(rt, ticks, now, (n - 1) as nat);
        let p = n - 1;
        let v = r.rt.verdict(p, r.ticks[p], now);
        Round {
            rt: r.rt.judged(p, r.ticks[p], now),
            ticks: r.ticks.update(p, r.rt.noted(p, r.ticks[p], now)),
            acted: if v is Preempt || v is Retake {
                r.acted + 1
            } else {
                r.acted
            },
            threads: if v is Preempt && r.rt.signal_target(p) is Some {
                r.threads.push(r.rt.signal_target(p)->0)
            } else {
                r.threads
            },
        }
    }
}

impl Rt {
    /// Asks the goroutine that runs on processor `p` to yield.  Gives back the
    /// thread to which a signal can be sent for it.
    pub fn preemptone(&mut self, p: usize) -> (thread: Option<u64>)
        requires
            old(self).wf(),
            p < old(self)@.ps.len(),
        ensures
            final(self).wf(),
            final(self)@ == old(self)@.preempted(p as int),
            thread == old(self)@.signal_target(p as int),
    {
        assert(p_names(self@.ps[p as int], self@.gs.len(), self@.ms.len()));
        let m: usize = match self.ps[p].m {
            None => {
                return None;
            },
            Some(m) => m,
        };
        assert(m_names(self@.ms[m as int], self@.gs.len(), self@.ps.len()));
        let gp: usize = match self.ms[m].curg {
            None => {
                return None;
            },
            Some(g) => g,
        };
        self.gs[gp].preempt = true;
        self.gs[gp].stackguard0 = STACK_PREEMPT;
        proof {
            let w = old(self)@.preempted(p as int);
            assert(self@.gs =~= w.gs);
            assert(self@.ps =~= w.ps);
        }
        let thread: u64 = self.ms[m].pthread_id;
        if thread != 0 {
            Some(thread)
        } else {
            None
        }
    }

    /// Takes processor `p` away from a system call and hands it on.
    fn retake_p(&mut self, p: usize)
        requires
            old(self).wf(),
            p < old(self)@.ps.len(),
        ensures
            final(self).wf(),
            final(self)@ == old(self)@.retaken(p as int),
    {
        self.ps[p].status = PIDLE;
        self.ps[p].m = None;
        self.ps[p].syscalltick = self.ps[p].syscalltick.wrapping_add(1);
        proof {
            let x = old(self)@.ps[p as int];
            assert(p_names(x, self@.gs.len(), self@.ms.len()));
            assert(self@.ps =~= old(self)@.ps.update(
                p as int,
                PView {
                    status: PIDLE,
                    m: None,
                    syscalltick: x.syscalltick.wrapping_add(1),
                    ..x
                },
            ));
        }
        self.startm(Some(p));
    }

    /// The monitor's verdict on processor `p`.
    fn judge(&self, p: usize, tick: SysmonTick, now: u64) -> (v: Verdict)
        requires
            self.wf(),
            p < self@.ps.len(),
        ensures
            v == self@.verdict(p as int, tick, now),
    {
        let status: u32 = self.ps[p].status;
        if status == PRUNNING {
            if tick.schedtick != self.ps[p].schedtick {
                return Verdict::Note;
            }
            if now.saturating_sub(tick.schedwhen) > FORCE_PREEMPT_NS {
                return Verdict::Preempt;
            }
        }
        if status == PSYSCALL {
            if tick.syscalltick != self.ps[p].syscalltick {
                return Verdict::Note;
            }
            let e: u64 = now.saturating_sub(tick.syscallwhen);
            if e < FORCE_RETAKE_NS {
                return Verdict::Leave;
            }
            if self.ps[p].runq_size() == 0 && e < LONG_RETAKE_NS {
                if self.nmspinning > 0 || self.idle_m.len() > 0 {
                    return Verdict::Leave;
                }
            }
            return Verdict::Retake;
        }
        Verdict::Leave
    }

    /// One round of the monitor over all processors, at time `now`.
    ///
    /// Gives back how many processors it acted on, and the threads to which a
    /// signal is to be sent.
    pub fn retake(&mut self, now: u64, ticks: &mut Vec<SysmonTick>) -> (r: (u32, Vec<u64>))
        requires
            old(self).wf(),
        ensures
            final(self).wf(),
            ({
                let n = old(self)@.ps.len();
                let end = round(old(self)@, extended(old(ticks)@, n, now), now, n);
                final(self)@ == end.rt && final(ticks)@ == end.ticks && r.0 == end.acted && r.1@
                    == end.threads
            }),
    {
        let n: usize = self.ps.len();
        let ghost t0 = ticks@;
        let ghost v0 = self@;
        while ticks.len() < n
            invariant
                n == v0.ps.len(),
                t0.len() <= ticks@.len(),
                t0.len() > n ==> ticks@ == t0,
                ticks@.len() <= n || ticks@ == t0,
                ticks@ == (if ticks@.len() > t0.len() {
                    extended(t0, ticks@.len(), now)
                } else {
                    t0
                }),
            decreases n - ticks@.len(),
        {
            let ghost before = ticks@;
            ticks.push(
                SysmonTick { schedtick: 0, schedwhen: now, syscalltick: 0, syscallwhen: now },
            );
            assert(ticks@ =~= extended(t0, ticks@.len(), now));
        }
        assert(ticks@ =~= extended(t0, n as nat, now));
        let ghost t1 = ticks@;
        let mut acted: u32 = 0;
        let mut threads: Vec<u64> = Vec::new();
        let mut i: usize = 0;
        while i < n
            invariant
                self.wf(),
                i <= n,
                n == v0.ps.len(),
                n <= i32::MAX,
                self@.ps.len() == n,
                n <= ticks@.len(),
                acted <= i,
                self@ == round(v0, t1, now, i as nat).rt,
                ticks@ == round(v0, t1, now, i as nat).ticks,
                acted == round(v0, t1, now, i as nat).acted,
                threads@ == round(v0, t1, now, i as nat).threads,
            decreases n - i,
        {
            let tick: SysmonTick = ticks[i];
            let ghost before = self@;
            match self.judge(i, tick, now) {
                Verdict::Leave => {
                    assert(ticks@.update(i as int, tick) =~= ticks@);
                },
                Verdict::Note => {
                    let mut t: SysmonTick = tick;
                    if self.ps[i].status == PRUNNING {
                        t.schedtick = self.ps[i].schedtick;
                        t.schedwhen = now;
                    } else {
                        t.syscalltick = self.ps[i].syscalltick;
                        t.syscallwhen = now;
                    }
                    ticks[i] = t;
                },
                Verdict::Preempt => {
                    assert(ticks@.update(i as int, tick) =~= ticks@);
                    if let Some(thread) = self.preemptone(i) {
                        threads.push(thread);
                    }
                    acted = acted + 1;
                },
                Verdict::Retake => {
                    assert(ticks@.update(i as int, tick) =~= ticks@);
                    self.retake_p(i);
                    acted = acted + 1;
                    proof {
                        lemma_retaken_keeps(before, i as int);
                    }
                },
            }
            i = i + 1;
        }
        (acted, threads)
    }
}

/// Taking a processor back leaves the number of processors and of searching
/// threads.
proof fn lemma_retaken_keeps(v: RtView, p: int)
    requires
        0 <= p < v.ps.len(),
    ensures
        v.retaken(p).ps.len() == v.ps.len(),
        v.retaken(p).nmspinning == v.nmspinning,
{
}

/// A processor that the monitor sees for the first time is left alone: its time
/// counts from that moment.
pub proof fn first_sight_is_left_alone(v: RtView, ticks: Seq<SysmonTick>, p: int, now: u64)
    requires
        0 <= p < v.ps.len(),
        ticks.len() <= p,
    ensures
        ({
            let t = extended(ticks, v.ps.len(), now)[p];
            v.verdict(p, t, now) is Leave || v.verdict(p, t, now) is Note
        }),
{
}

/// A goroutine is asked to yield exactly when its processor has run it, and
/// nothing else, for more than ten milliseconds.
pub proof fn preempts_after_ten_ms(v: RtView, p: int, tick: SysmonTick, now: u64)
    requires
        v.ps[p].status == PRUNNING,
    ensures
        v.verdict(p, tick, now) is Preempt <==> tick.schedtick == v.ps[p].schedtick && now
            - tick.schedwhen > 10_000_000,
{
}

/// A processor whose thread has been in one system call for ten milliseconds is
/// taken away, whatever else holds.
pub proof fn long_syscall_loses_processor(v: RtView, p: int, tick: SysmonTick, now: u64)
    requires
        v.ps[p].status == PSYSCALL,
        tick.syscalltick == v.ps[p].syscalltick,
        now - tick.syscallwhen >= 10_000_000,
    ensures
        v.verdict(p, tick, now) is Retake,
{
}

/// A processor that was taken away is no longer marked as in a system call, so
/// the thread that let go of it does not get it back by that mark.
pub proof fn retaken_is_gone(v: RtView, p: usize, m: int)
    requires
        v.names(),
        p < v.ps.len(),
        0 <= m < v.ms.len(),
        v.ms[m].oldp == Some(p),
    ensures
        !v.retaken(p as int).keeps_old(m),
{
}

/// The monitor's pauses stay between 20 microseconds and 10 milliseconds.
pub proof fn pauses_stay_in_range(delay_us: int, idle: int)
    requires
        20 <= delay_us <= 10_000,
        idle >= 0,
    ensures
        20 <= backoff(delay_us, idle) <= 10_000,
{
}

/// Processor `p` has run goroutine `g`, and nothing else, for more than ten
/// milliseconds, as far as the record `tick` tells.
pub open spec fn overran(v: RtView, p: int, tick: SysmonTick, now: u64, g: usize) -> bool {
    &&& v.ps[p].status == PRUNNING
    &&& v.ps[p].m is Some
    &&& v.ms[v.ps[p].m->0 as int].curg == Some(g)
    &&& tick.schedtick == v.ps[p].schedtick
    &&& now - tick.schedwhen > 10_000_000
}

/// One of the first `n` processors has run goroutine `g` for too long.
pub open spec fn overran_on(v: RtView, ticks: Seq<SysmonTick>, n: int, now: u64, g: usize) -> bool {
    exists|p: int| 0 <= p < n && #[trigger] overran(v, p, ticks[p], now, g)
}

/// Thread `id` is one that has run a goroutine for too long, on one of the first
/// `n` processors.
pub open spec fn overran_thread(
    v: RtView,
    ticks: Seq<SysmonTick>,
    n: int,
    now: u64,
    id: u64,
) -> bool {
    &&& id != 0
    &&& exists|p: int, g: usize|
        0 <= p < n && #[trigger] overran(v, p, ticks[p], now, g) && v.ms[v.ps[p].m->0 as int].pthread_id
            == id
}

/// What a record says after a look at processor `x`: where the processor has moved
/// on, the new tick, and that it was new at `now`; else what it said before.
pub open spec fn record_is_right(
    x: PView,
    before: SysmonTick,
    after: SysmonTick,
    now: u64,
) -> bool {
    &&& x.status == PRUNNING ==> after.syscalltick == before.syscalltick && after.syscallwhen
        == before.syscallwhen && after.schedtick == x.schedtick && after.schedwhen == (
    if before.schedtick == x.schedtick {
        before.schedwhen
    } else {
        now
    })
    &&& x.status == PSYSCALL ==> after.schedtick == before.schedtick && after.schedwhen
        == before.schedwhen && after.syscalltick == x.syscalltick && after.syscallwhen == (
    if before.syscalltick == x.syscalltick {
        before.syscallwhen
    } else {
        now
    })
    &&& x.status != PRUNNING && x.status != PSYSCALL ==> after == before
}

/// Taking a processor back changes that processor, and the thread that gets it.
proof fn lemma_retaken(v: RtView, p: int)
    requires
        v.names(),
        0 <= p < v.ps.len(),
    ensures
        ({
            let w = v.retaken(p);
            &&& w.names()
            &&& w.gs == v.gs
            &&& w.ps.len() == v.ps.len()
            &&& w.ms.len() == v.ms.len()
            &&& w.nmspinning == v.nmspinning
            &&& w.idle_m.len() <= v.idle_m.len()
            &&& forall|q: int| 0 <= q < v.ps.len() && q != p ==> #[trigger] w.ps[q] == v.ps[q]
            &&& w.ps[p].status != PSYSCALL
            &&& w.ps[p].syscalltick == v.ps[p].syscalltick.wrapping_add(1)
            &&& w.ps[p].ring == v.ps[p].ring && w.ps[p].runnext == v.ps[p].runnext
            &&& forall|m: int|
                0 <= m < v.ms.len() ==> (#[trigger] w.ms[m]).curg == v.ms[m].curg && w.ms[m].pthread_id
                    == v.ms[m].pthread_id && w.ms[m].oldp == v.ms[m].oldp
        }),
{
    let x = PView {
        status: PIDLE,
        m: None,
        syscalltick: v.ps[p].syscalltick.wrapping_add(1),
        ..v.ps[p]
    };
    let a = v.with_p(p, x);
    assert(a.names()) by {
        assert(p_names(v.ps[p], v.gs.len(), v.ms.len()));
        assert forall|i: int| 0 <= i < a.ps.len() implies p_names(
            #[trigger] a.ps[i],
            a.gs.len(),
            a.ms.len(),
        ) by {
            assert(p_names(v.ps[i], v.gs.len(), v.ms.len()));
        }
        assert forall|i: int| 0 <= i < a.ms.len() implies m_names(
            #[trigger] a.ms[i],
            a.gs.len(),
            a.ps.len(),
        ) by {
            assert(m_names(v.ms[i], v.gs.len(), v.ps.len()));
        }
    }
    super::sched::lemma_started_names(a, Some(p as usize));
    if a.idle_m.len() > 0 {
        assert(a.idle_m[a.idle_m.len() - 1] < a.ms.len());
    }
}

proof fn lemma_round(v: RtView, ticks: Seq<SysmonTick>, now: u64, n: nat)
    requires
        v.names(),
        n <= v.ps.len(),
        n <= ticks.len(),
    ensures
        ({
            let r = round(v, ticks, now, n);
            &&& r.rt.names()
            &&& r.rt.gs.len() == v.gs.len()
            &&& r.rt.ps.len() == v.ps.len()
            &&& r.rt.ms.len() == v.ms.len()
            &&& r.rt.nmspinning == v.nmspinning
            &&& r.rt.idle_m.len() <= v.idle_m.len()
            &&& r.ticks.len() == ticks.len()
            &&& r.acted <= n
            &&& forall|p: int| n <= p < v.ps.len() ==> #[trigger] r.rt.ps[p] == v.ps[p]
            &&& forall|p: int| n <= p < ticks.len() ==> #[trigger] r.ticks[p] == ticks[p]
            &&& forall|m: int|
                0 <= m < v.ms.len() ==> (#[trigger] r.rt.ms[m]).curg == v.ms[m].curg
                    && r.rt.ms[m].pthread_id == v.ms[m].pthread_id && r.rt.ms[m].oldp
                    == v.ms[m].oldp
            &&& forall|p: int|
                0 <= p < n ==> record_is_right(v.ps[p], ticks[p], #[trigger] r.ticks[p], now)
            &&& forall|p: int|
                0 <= p < n && v.ps[p].status != PSYSCALL ==> #[trigger] r.rt.ps[p] == v.ps[p]
            &&& forall|p: int|
                0 <= p < n && v.ps[p].status == PSYSCALL && (ticks[p].syscalltick
                    != v.ps[p].syscalltick || now - ticks[p].syscallwhen < 20_000)
                    ==> #[trigger] r.rt.ps[p] == v.ps[p]
            &&& forall|p: int|
                0 <= p < n && v.ps[p].status == PSYSCALL && ticks[p].syscalltick
                    == v.ps[p].syscalltick && now - ticks[p].syscallwhen >= 20_000 && (
                v.ps[p].size() > 0 || now - ticks[p].syscallwhen >= 10_000_000 || v.nmspinning == 0
                    && v.idle_m.len() == 0) ==> (#[trigger] r.rt.ps[p]).status != PSYSCALL
                    && r.rt.ps[p].syscalltick == v.ps[p].syscalltick.wrapping_add(1) && r.acted > 0
            &&& forall|p: int|
                0 <= p < n && v.ps[p].status == PSYSCALL && v.ps[p].size() == 0 && now
                    - ticks[p].syscallwhen < 10_000_000 && v.nmspinning > 0 ==> #[trigger] r.rt.ps[p]
                    == v.ps[p]
            &&& forall|g: usize|
                g < v.gs.len() ==> #[trigger] r.rt.gs[g as int] == (if overran_on(
                    v,
                    ticks,
                    n as int,
                    now,
                    g,
                ) {
                    G { preempt: true, stackguard0: u64::MAX, ..v.gs[g as int] }
                } else {
                    v.gs[g as int]
                })
            &&& forall|p: int, g: usize|
                0 <= p < n && #[trigger] overran(v, p, ticks[p], now, g) ==> r.acted > 0 && (
                v.ms[v.ps[p].m->0 as int].pthread_id != 0 ==> r.threads.contains(
                    v.ms[v.ps[p].m->0 as int].pthread_id,
                ))
            &&& forall|k: int|
                0 <= k < r.threads.len() ==> overran_thread(
                    v,
                    ticks,
                    n as int,
                    now,
                    #[trigger] r.threads[k],
                )
            &&& r.acted == 0 ==> r.rt == v && r.threads.len() == 0
        }),
    decreases n,
{
    if n > 0 {
        let k = (n - 1) as nat;
        lemma_round(v, ticks, now, k);
        let a = round(v, ticks, now, k);
        let r = round(v, ticks, now, n);
        let p = k as int;
        let t = a.ticks[p];
        assert(a.ticks[p] == ticks[p]);
        assert(a.rt.ps[p] == v.ps[p]);
        let d = a.rt.verdict(p, t, now);
        assert(p_names(v.ps[p], v.gs.len(), v.ms.len()));
        if v.ps[p].m is Some {
            let m = v.ps[p].m->0 as int;
            assert(a.rt.ms[m].curg == v.ms[m].curg);
            assert(m_names(v.ms[m], v.gs.len(), v.ps.len()));
        }
        assert(a.rt.running_on(p) == v.running_on(p));
        if d is Retake {
            lemma_retaken(a.rt, p);
        }
        if d is Preempt && v.running_on(p) is Some {
            let g = v.running_on(p)->0;
            super::sched::with_g_keeps_names(
                a.rt,
                g as int,
                G { preempt: true, stackguard0: STACK_PREEMPT, ..a.rt.gs[g as int] },
            );
        }
        assert(r.rt.names());
        assert forall|g: usize| overran(v, p, ticks[p], now, g) <==> d is Preempt
            && v.running_on(p) == Some(g) by {}
        assert forall|g: usize| overran_on(v, ticks, n as int, now, g) <==> overran_on(
            v,
            ticks,
            k as int,
            now,
            g,
        ) || overran(v, p, ticks[p], now, g) by {
            if overran_on(v, ticks, k as int, now, g) {
                let q = choose|q: int| 0 <= q < k && #[trigger] overran(v, q, ticks[q], now, g);
                assert(overran(v, q, ticks[q], now, g));
            }
        }
        assert forall|g: usize| g < v.gs.len() implies #[trigger] r.rt.gs[g as int] == (
        if overran_on(v, ticks, n as int, now, g) {
            G { preempt: true, stackguard0: u64::MAX, ..v.gs[g as int] }
        } else {
            v.gs[g as int]
        }) by {
            assert(a.rt.gs[g as int] == a.rt.gs[g as int]);
            assert(overran(v, p, ticks[p], now, g) <==> d is Preempt && v.running_on(p) == Some(g));
        }
        assert forall|q: int, g: usize| 0 <= q < n && #[trigger] overran(
            v,
            q,
            ticks[q],
            now,
            g,
        ) implies r.acted > 0 && (v.ms[v.ps[q].m->0 as int].pthread_id != 0 ==> r.threads.contains(
            v.ms[v.ps[q].m->0 as int].pthread_id,
        )) by {
            let id = v.ms[v.ps[q].m->0 as int].pthread_id;
            if q < k {
                if id != 0 {
                    let i = a.threads.index_of(id);
                    assert(r.threads[i] == id);
                }
            } else if id != 0 {
                assert(a.rt.signal_target(p) == Some(id));
                assert(r.threads[r.threads.len() - 1] == id);
            }
        }
        assert forall|j: int| 0 <= j < r.threads.len() implies overran_thread(
            v,
            ticks,
            n as int,
            now,
            #[trigger] r.threads[j],
        ) by {
            if j < a.threads.len() {
                assert(r.threads[j] == a.threads[j]);
                let (q, g) = choose|q: int, g: usize|
                    0 <= q < k && #[trigger] overran(v, q, ticks[q], now, g)
                        && v.ms[v.ps[q].m->0 as int].pthread_id == a.threads[j];
                assert(overran(v, q, ticks[q], now, g));
            } else {
                let g = v.running_on(p)->0;
                assert(overran(v, p, ticks[p], now, g));
            }
        }
    }
}

/// One round of the monitor asks a goroutine to yield exactly when its processor
/// has run it, and nothing else, for more than ten milliseconds; a signal then
/// goes to the thread that runs it.  No other goroutine is touched.
pub proof fn a_round_preempts_who_overran(
    v: RtView,
    ticks: Seq<SysmonTick>,
    now: u64,
    g: usize,
)
    requires
        v.names(),
        v.ps.len() <= ticks.len(),
        g < v.gs.len(),
    ensures
        ({
            let r = round(v, ticks, now, v.ps.len());
            let over = exists|p: int|
                0 <= p < v.ps.len() && #[trigger] overran(v, p, ticks[p], now, g);
            &&& over ==> r.rt.gs[g as int] == (G {
                preempt: true,
                stackguard0: u64::MAX,
                ..v.gs[g as int]
            }) && r.acted > 0
            &&& !over ==> r.rt.gs[g as int] == v.gs[g as int]
            &&& forall|p: int|
                0 <= p < v.ps.len() && #[trigger] overran(v, p, ticks[p], now, g)
                    && v.ms[v.ps[p].m->0 as int].pthread_id != 0 ==> r.threads.contains(
                    v.ms[v.ps[p].m->0 as int].pthread_id,
                )
            &&& forall|k: int|
                0 <= k < r.threads.len() ==> overran_thread(
                    v,
                    ticks,
                    v.ps.len() as int,
                    now,
                    #[trigger] r.threads[k],
                )
        }),
{
    lemma_round(v, ticks, now, v.ps.len());
    assert(overran_on(v, ticks, v.ps.len() as int, now, g) <==> exists|p: int|
        0 <= p < v.ps.len() && #[trigger] overran(v, p, ticks[p], now, g));
}

/// What the monitor has noted after a round: of a processor that has moved on, the
/// new tick and that it was seen at this time; of any other, what it had noted
/// before.
pub proof fn a_round_notes_what_is_new(v: RtView, ticks: Seq<SysmonTick>, now: u64, p: int)
    requires
        v.names(),
        v.ps.len() <= ticks.len(),
        0 <= p < v.ps.len(),
    ensures
        ({
            let x = v.ps[p];
            let a = ticks[p];
            let b = round(v, ticks, now, v.ps.len()).ticks[p];
            &&& x.status == PRUNNING && a.schedtick != x.schedtick ==> b == (SysmonTick {
                schedtick: x.schedtick,
                schedwhen: now,
                ..a
            })
            &&& x.status == PSYSCALL && a.syscalltick != x.syscalltick ==> b == (SysmonTick {
                syscalltick: x.syscalltick,
                syscallwhen: now,
                ..a
            })
            &&& x.status == PRUNNING && a.schedtick == x.schedtick ==> b == a
            &&& x.status == PSYSCALL && a.syscalltick == x.syscalltick ==> b == a
            &&& x.status != PRUNNING && x.status != PSYSCALL ==> b == a
        }),
        round(v, ticks, now, v.ps.len()).ticks.len() == ticks.len(),
{
    lemma_round(v, ticks, now, v.ps.len());
    assert(record_is_right(v.ps[p], ticks[p], round(v, ticks, now, v.ps.len()).ticks[p], now));
}

/// A goroutine that the monitor saw to be new on its processor is not asked to
/// yield by a later round within ten milliseconds, whatever ran elsewhere
/// meanwhile.
pub proof fn a_new_goroutine_gets_its_ten_ms(
    v: RtView,
    ticks: Seq<SysmonTick>,
    now: u64,
    w: RtView,
    later: u64,
    p: int,
    g: usize,
)
    requires
        v.names(),
        w.names(),
        v.ps.len() == w.ps.len(),
        v.ps.len() <= ticks.len(),
        0 <= p < v.ps.len(),
        g < w.gs.len(),
        v.ps[p].status == PRUNNING,
        ticks[p].schedtick != v.ps[p].schedtick,
        later - now <= 10_000_000,
        w.ps[p].m is Some,
        w.ms[w.ps[p].m->0 as int].curg == Some(g),
        forall|q: int|
            0 <= q < w.ps.len() && q != p ==> w.running_on(q) != Some(
                g,
            ) || #[trigger] w.ps[q].status != PRUNNING,
    ensures
        ({
            let noted = round(v, ticks, now, v.ps.len()).ticks;
            round(w, noted, later, w.ps.len()).rt.gs[g as int] == w.gs[g as int]
        }),
{
    let noted = round(v, ticks, now, v.ps.len()).ticks;
    a_round_notes_what_is_new(v, ticks, now, p);
    a_round_preempts_who_overran(w, noted, later, g);
    if overran_on(w, noted, w.ps.len() as int, later, g) {
        let q = choose|q: int| 0 <= q < w.ps.len() && #[trigger] overran(w, q, noted[q], later, g);
        assert(w.ps[q].status == PRUNNING);
        assert(w.running_on(q) == Some(g));
        assert(q == p);
    }
    assert(!(exists|q: int|
        0 <= q < w.ps.len() && #[trigger] overran(w, q, noted[q], later, g))) by {
        if exists|q: int| 0 <= q < w.ps.len() && #[trigger] overran(w, q, noted[q], later, g) {
            assert(overran_on(w, noted, w.ps.len() as int, later, g));
        }
    }
}

/// One round of the monitor and the processors in system calls: one that came
/// there since the last look, or less than twenty microseconds ago, is left alone;
/// one that has been there longer is taken away if goroutines wait on it, if
/// nobody else is idle or searching, or if ten milliseconds have passed.  Every
/// other processor is left alone.
pub proof fn a_round_retakes_from_long_syscalls(
    v: RtView,
    ticks: Seq<SysmonTick>,
    now: u64,
    p: int,
)
    requires
        v.names(),
        v.ps.len() <= ticks.len(),
        0 <= p < v.ps.len(),
    ensures
        ({
            let r = round(v, ticks, now, v.ps.len());
            let x = v.ps[p];
            let spent = now - ticks[p].syscallwhen;
            &&& x.status != PSYSCALL ==> r.rt.ps[p] == x
            &&& x.status == PSYSCALL && (ticks[p].syscalltick != x.syscalltick || spent < 20_000)
                ==> r.rt.ps[p] == x
            &&& x.status == PSYSCALL && x.size() == 0 && spent < 10_000_000 && v.nmspinning > 0
                ==> r.rt.ps[p] == x
            &&& x.status == PSYSCALL && ticks[p].syscalltick == x.syscalltick && spent >= 20_000
                && (x.size() > 0 || spent >= 10_000_000 || v.nmspinning == 0 && v.idle_m.len()
                == 0) ==> r.rt.ps[p].status != PSYSCALL && r.rt.ps[p].syscalltick
                == x.syscalltick.wrapping_add(1) && r.acted > 0
        }),
{
    lemma_round(v, ticks, now, v.ps.len());
}

/// The monitor counts a round as idle only if it has changed nothing.
pub proof fn an_idle_round_changes_nothing(v: RtView, ticks: Seq<SysmonTick>, now: u64)
    requires
        v.names(),
        v.ps.len() <= ticks.len(),
    ensures
        round(v, ticks, now, v.ps.len()).acted <= v.ps.len(),
        round(v, ticks, now, v.ps.len()).acted == 0 ==> round(v, ticks, now, v.ps.len()).rt == v
            && round(v, ticks, now, v.ps.len()).threads.len() == 0,
{
    lemma_round(v, ticks, now, v.ps.len());
}

/// A processor that is taken from a system call while a thread sleeps is at work
/// with that thread, which is woken; else it is idle.  What waits on it stays.
pub proof fn a_retaken_processor_is_handed_on(v: RtView, p: int)
    requires
        v.names(),
        0 <= p < v.ps.len(),
    ensures
        ({
            let w = v.retaken(p);
            &&& w.ps[p].ring == v.ps[p].ring && w.ps[p].runnext == v.ps[p].runnext
            &&& v.idle_m.len() == 0 ==> w.ps[p].status == PIDLE && w.ps[p].m is None && w.idle_p
                == v.idle_p.push(p as usize) && w.ms == v.ms
            &&& v.idle_m.len() > 0 ==> ({
                let m = v.idle_m[v.idle_m.len() - 1];
                &&& w.ps[p].status == PRUNNING && w.ps[p].m == Some(m)
                &&& w.ms[m as int].p == Some(p as usize) && w.ms[m as int].park.flag
                &&& w.idle_m == v.idle_m.drop_last() && w.idle_p == v.idle_p
            })
            &&& w.global == v.global && w.gs == v.gs
        }),
{
    if v.idle_m.len() > 0 {
        assert(v.idle_m[v.idle_m.len() - 1] < v.ms.len());
    }
}

/// The records grow with the processors: those that exist stay, and a new one
/// counts from now on.
pub proof fn records_are_kept(ticks: Seq<SysmonTick>, n: nat, now: u64, p: int)
    requires
        0 <= p < n || 0 <= p < ticks.len(),
    ensures
        extended(ticks, n, now).len() >= n,
        extended(ticks, n, now).len() >= ticks.len(),
        p < ticks.len() ==> extended(ticks, n, now)[p] == ticks[p],
        ticks.len() <= p < n ==> extended(ticks, n, now)[p].schedwhen == now && extended(
            ticks,
            n,
            now,
        )[p].syscallwhen == now && extended(ticks, n, now)[p].schedtick == 0 && extended(
            ticks,
            n,
            now,
        )[p].syscalltick == 0,
{
}

/// The monitor's pause is shortest after it has acted, stays the same for fifty
/// idle rounds, and then doubles until it is longest.
pub proof fn pauses_grow_while_idle(delay_us: int, idle: int)
    requires
        20 <= delay_us <= 10_000,
    ensures
        idle == 0 ==> backoff(delay_us, idle) == 20,
        1 <= idle <= 50 ==> backoff(delay_us, idle) == delay_us,
        idle > 50 && delay_us <= 5_000 ==> backoff(delay_us, idle) == 2 * delay_us,
        idle > 50 && delay_us > 5_000 ==> backoff(delay_us, idle) == 10_000,
{
}

/// A processor is taken from a system call exactly when the monitor has seen the
/// same call for twenty microseconds and goroutines wait on the processor, or
/// nobody is there who could take them, or the call has lasted ten milliseconds.
pub proof fn a_processor_is_retaken_when_needed(v: RtView, p: int, tick: SysmonTick, now: u64)
    requires
        v.names(),
        0 <= p < v.ps.len(),
    ensures
        ({
            let x = v.ps[p];
            let r = v.verdict(p, tick, now);
            &&& r is Retake <==> x.status == 2 && tick.syscalltick == x.syscalltick && now
                - tick.syscallwhen >= 20_000 && (x.ring.len() > 0 || x.runnext is Some || now
                - tick.syscallwhen >= 10_000_000 || v.nmspinning == 0 && v.idle_m.len() == 0)
            &&& r is Preempt <==> x.status == 1 && tick.schedtick == x.schedtick && now
                - tick.schedwhen > 10_000_000
            &&& r is Note <==> x.status == 1 && tick.schedtick != x.schedtick || x.status == 2
                && tick.syscalltick != x.syscalltick
        }),
{
}

/// Asking the goroutine on a processor to yield marks it, and nobody else; the
/// signal goes to the thread that runs it, if that is known.
pub proof fn who_runs_is_asked(v: RtView, p: int, m: usize)
    requires
        v.names(),
        0 <= p < v.ps.len(),
        m < v.ms.len(),
    ensures
        ({
            let w = v.preempted(p);
            &&& v.ps[p].m is None ==> w == v && v.signal_target(p) is None
            &&& v.ps[p].m == Some(m) && v.ms[m as int].curg is None ==> w == v && v.signal_target(
                p,
            ) is None
            &&& v.ps[p].m == Some(m) ==> (v.ms[m as int].curg matches Some(g) ==> {
                &&& w.gs[g as int] == (G {
                    preempt: true,
                    stackguard0: 0xffff_ffff_ffff_ffff,
                    ..v.gs[g as int]
                })
                &&& forall|h: int| 0 <= h < v.gs.len() && h != g ==> #[trigger] w.gs[h] == v.gs[h]
                &&& v.signal_target(p) == (if v.ms[m as int].pthread_id == 0 {
                    None
                } else {
                    Some(v.ms[m as int].pthread_id)
                })
            })
            &&& w == (RtView { gs: w.gs, ..v })
        }),
{
    if v.ps[p].m == Some(m) {
        assert(m_names(v.ms[m as int], v.gs.len(), v.ps.len()));
    }
}

/// A round goes over the processors one by one.  It counts each on which it acts,
/// once, names the thread of each that it preempts, and touches no queue; of a
/// goroutine it changes only that it is asked to yield, of a thread only the
/// processor and the wake-up.
pub proof fn a_round_acts_one_by_one(v: RtView, ticks: Seq<SysmonTick>, now: u64, n: nat, t: int)
    requires
        v.names(),
        v.ps.len() <= ticks.len(),
        0 < n <= v.ps.len(),
        0 <= t < v.ms.len(),
    ensures
        ({
            let a = round(v, ticks, now, (n - 1) as nat);
            let b = round(v, ticks, now, n);
            let r = a.rt.verdict(n - 1, ticks[n - 1], now);
            let target = a.rt.signal_target(n - 1);
            &&& round(v, ticks, now, 0) == (Round { rt: v, ticks, acted: 0, threads: seq![] })
            &&& r is Preempt || r is Retake ==> b.acted == a.acted + 1
            &&& r is Leave || r is Note ==> b.acted == a.acted && b.rt == a.rt
            &&& r is Preempt && target is Some ==> b.threads == a.threads.push(target->0)
            &&& !(r is Preempt && target is Some) ==> b.threads == a.threads
            &&& b.rt == (RtView {
                gs: b.rt.gs,
                ps: b.rt.ps,
                ms: b.rt.ms,
                idle_p: b.rt.idle_p,
                idle_m: b.rt.idle_m,
                ..v
            })
            &&& b.rt.ms[t] == (M { p: b.rt.ms[t].p, park: b.rt.ms[t].park, ..v.ms[t] })
        }),
    decreases n,
{
    lemma_round(v, ticks, now, (n - 1) as nat);
    let a = round(v, ticks, now, (n - 1) as nat);
    if n > 1 {
        a_round_acts_one_by_one(v, ticks, now, (n - 1) as nat, t);
    }
    let p = n - 1;
    assert(p_names(a.rt.ps[p], a.rt.gs.len(), a.rt.ms.len()));
    if a.rt.idle_m.len() > 0 {
        assert(a.rt.idle_m[a.rt.idle_m.len() - 1] < a.rt.ms.len());
    }
    assert(a.ticks[p] == ticks[p]);
}

} // verus!
