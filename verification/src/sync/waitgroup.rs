//! Waiting for a number of goroutines to finish.

use vstd::prelude::*;

use crate::runtime::g::{scan_flag_hides_nothing, ParkUnlock, WaitReason, G, GRUNNABLE, GWAITING};
use crate::runtime::m::M;
use crate::runtime::park::{
    lemma_parked_status, ready_keeps_names, ready_touches_only_its_goroutine, Ready,
};
use crate::runtime::rawmutex::RawMutex;
use crate::runtime::sched::{all_below, opt_below, with_g_keeps_names, Rt, RtView};

verus! {

/// A counter of things still to be done, and the goroutines that wait for it to
/// reach zero.
pub struct WaitGroup {
    /// Held while the counter changes, and by a goroutine that waits until it is
    /// safely parked.
    pub mu: RawMutex,
    /// What is still to be done.
    pub count: i64,
    /// Who waits.
    pub waiters: Vec<usize>,
}

/// What somebody who waits does next.
#[derive(Copy, Clone, Debug, PartialEq, Eq, Structural)]
pub enum WaitStep {
    /// The counter is zero: it goes on.
    Done,
    /// It is a goroutine, and parks; the group's lock is released once it has.
    Park,
    /// It is a thread, and sleeps until the counter may be zero.
    Sleep,
}

impl RtView {
    /// The first `n` of `list` were taken off the group on which they waited and
    /// made ready, one by one.
    pub open spec fn let_go(self, m: Option<usize>, list: Seq<usize>, n: nat) -> RtView
        decreases n,
    {
        if n == 0 {
            self
        } else {
            let v = self.let_go(m, list, (n - 1) as nat);
            let gp = list[n - 1];
            v.with_g(gp as int, G { waiting_wg: None, ..v.gs[gp as int] }).readied(m, gp)
        }
    }

    /// Goroutine `gp`, on thread `m`, waits on group `wg`, whose lock is to be
    /// released after it has parked.
    pub open spec fn waits_on(self, m: int, gp: int, wg: usize) -> RtView {
        let g = self.gs[gp];
        self.with_m(m, M { locks: (self.ms[m].locks + 1) as i32, ..self.ms[m] }).with_g(
            gp,
            G {
                waiting_wg: Some(wg),
                waitreason: WaitReason::Semacquire,
                park_unlock: Some(ParkUnlock { lock: wg }),
                ..g
            },
        )
    }
}

/// None of `list` is just about to park.
pub open spec fn settled(list: Seq<usize>, gs: Seq<G>) -> bool {
    forall|i: int|
        0 <= i < list.len() ==> gs[(#[trigger] list[i]) as int].readiness() != Ready::Spin
}

/// Letting goroutines go touches no others, and leaves none of them waiting.
proof fn lemma_let_go(v: RtView, m: Option<usize>, list: Seq<usize>, n: nat)
    requires
        v.names(),
        opt_below(m, v.ms.len()),
        all_below(list, v.gs.len()),
        n <= list.len(),
        settled(list, v.gs),
    ensures
        v.let_go(m, list, n).gs.len() == v.gs.len(),
        v.let_go(m, list, n).ms.len() == v.ms.len(),
        v.let_go(m, list, n).names(),
        settled(list, v.let_go(m, list, n).gs),
        forall|i: int|
            0 <= i < n ==> {
                let g = v.let_go(m, list, n).gs[(#[trigger] list[i]) as int];
                g.readiness() == Ready::NotNeeded && g.waiting_wg is None
            },
        forall|g: int|
            0 <= g < v.gs.len() && !list.take(n as int).contains(g as usize) ==> #[trigger] v.let_go(
                m,
                list,
                n,
            ).gs[g] == v.gs[g],
    decreases n,
{
    if n > 0 {
        let k = (n - 1) as nat;
        lemma_let_go(v, m, list, k);
        let a = v.let_go(m, list, k);
        let gp = list[k as int];
        let b = a.with_g(gp as int, G { waiting_wg: None, ..a.gs[gp as int] });
        with_g_keeps_names(a, gp as int, G { waiting_wg: None, ..a.gs[gp as int] });
        ready_touches_only_its_goroutine(b, m, gp);
        ready_keeps_names(b, m, gp);
        let c = b.readied(m, gp);
        assert(v.let_go(m, list, n) == c);
        assert(a.gs[gp as int].readiness() != Ready::Spin);
        assert(b.gs[gp as int].readiness() == a.gs[gp as int].readiness());
        assert(c.gs[gp as int].readiness() == Ready::NotNeeded);
        assert forall|i: int| 0 <= i < n implies ({
            let g = c.gs[(#[trigger] list[i]) as int];
            g.readiness() == Ready::NotNeeded && g.waiting_wg is None
        }) by {
            if list[i] != gp {
                assert(c.gs[list[i] as int] == a.gs[list[i] as int]);
            }
        }
        assert forall|i: int| 0 <= i < list.len() implies c.gs[(
        #[trigger] list[i]) as int].readiness() != Ready::Spin by {
            if list[i] != gp {
                assert(c.gs[list[i] as int] == a.gs[list[i] as int]);
            }
        }
        assert forall|g: int| 0 <= g < v.gs.len() && !list.take(n as int).contains(
            g as usize,
        ) implies #[trigger] c.gs[g] == v.gs[g] by {
            let t = list.take(n as int);
            assert(t[k as int] == gp);
            assert(t.contains(gp));
            assert(g != gp) by {
                if g == gp {
                    assert(g as usize == gp);
                }
            }
            if list.take(k as int).contains(g as usize) {
                let i = list.take(k as int).index_of(g as usize);
                assert(t[i] == g as usize);
            }
            assert(c.gs[g] == a.gs[g]);
        }
    }
}

/// Letting goroutines go makes and ends none.
pub proof fn lemma_let_go_keeps_len(v: RtView, m: Option<usize>, list: Seq<usize>)
    requires
        v.names(),
        opt_below(m, v.ms.len()),
        all_below(list, v.gs.len()),
        settled(list, v.gs),
    ensures
        v.let_go(m, list, list.len()).gs.len() == v.gs.len(),
{
    lemma_let_go(v, m, list, list.len());
}

impl WaitGroup {
    /// The counter is not negative, and nobody waits at zero.
    pub open spec fn wf(self) -> bool {
        &&& self.count >= 0
        &&& self.count == 0 ==> self.waiters@.len() == 0
    }

    /// The goroutines that wait exist; while the lock is free, they have parked.
    pub open spec fn fits(self, gs: Seq<G>) -> bool {
        &&& all_below(self.waiters@, gs.len())
        &&& !self.mu.locked ==> settled(self.waiters@, gs)
    }

    /// A group with nothing to do.
    pub fn new() -> (wg: WaitGroup)
        ensures
            wg.wf(),
            !wg.mu.locked,
            wg.count == 0,
            wg.waiters@ == Seq::<usize>::empty(),
    {
        WaitGroup { mu: RawMutex::new(), count: 0, waiters: Vec::new() }
    }

    /// Adds `delta` to the counter, from thread `m`.
    ///
    /// When the counter comes to zero, all goroutines that wait are made ready,
    /// in the order in which they came; and the caller, who is told so, wakes
    /// the threads.
    pub fn add(&mut self, rt: &mut Rt, m: Option<usize>, delta: i64) -> (zero: bool)
        requires
            old(self).wf(),
            old(rt).wf(),
            old(self).fits(old(rt)@.gs),
            !old(self).mu.locked,
            opt_below(m, old(rt)@.ms.len()),
            0 <= old(self).count + delta <= i64::MAX,
        ensures
            final(self).wf(),
            final(rt).wf(),
            final(self).fits(final(rt)@.gs),
            !final(self).mu.locked,
            final(self).count == old(self).count + delta,
            zero == (final(self).count == 0),
            final(self).waiters@ == (if zero {
                Seq::empty()
            } else {
                old(self).waiters@
            }),
            final(rt)@ == (if zero {
                old(rt)@.let_go(m, old(self).waiters@, old(self).waiters@.len())
            } else {
                old(rt)@
            }),
            forall|i: int|
                zero && 0 <= i < old(self).waiters@.len() ==> {
                    let g = final(rt)@.gs[(#[trigger] old(self).waiters@[i]) as int];
                    g.readiness() == Ready::NotNeeded && g.waiting_wg is None
                },
            forall|i: int|
                zero && 0 <= i < old(self).waiters@.len() && old(rt)@.gs[(
                #[trigger] old(self).waiters@[i]) as int].status() == GWAITING
                    ==> final(rt)@.gs[old(self).waiters@[i] as int].status() == GRUNNABLE,
            forall|g: int|
                0 <= g < old(rt)@.gs.len() && !old(self).waiters@.contains(g as usize)
                    ==> #[trigger] final(rt)@.gs[g] == old(rt)@.gs[g],
    {
        let _ = self.mu.try_lock();
        self.count = self.count + delta;
        if self.count != 0 {
            self.mu.unlock();
            return false;
        }
        let mut list: Vec<usize> = Vec::new();
        std::mem::swap(&mut list, &mut self.waiters);
        self.mu.unlock();
        let ghost v = rt@;
        let mut i: usize = 0;
        while i < list.len()
            invariant
                i <= list@.len(),
                rt.wf(),
                v.names(),
                v == old(rt)@,
                list@ == old(self).waiters@,
                all_below(list@, v.gs.len()),
                settled(list@, v.gs),
                opt_below(m, v.ms.len()),
                rt@ == v.let_go(m, list@, i as nat),
            decreases list@.len() - i,
        {
            proof {
                lemma_let_go(v, m, list@, i as nat);
            }
            let gp: usize = list[i];
            let ghost a = rt@;
            rt.gs[gp].waiting_wg = None;
            let ghost b = a.with_g(gp as int, G { waiting_wg: None, ..a.gs[gp as int] });
            assert(rt@ =~= b);
            assert(b.gs[gp as int].readiness() == a.gs[gp as int].readiness());
            rt.goready(m, gp);
            i = i + 1;
        }
        proof {
            lemma_let_go(v, m, list@, list@.len());
            assert(list@.take(list@.len() as int) =~= list@);
            assert forall|i: int|
                0 <= i < list@.len() && v.gs[(#[trigger] list@[i]) as int].status()
                    == GWAITING implies rt@.gs[list@[i] as int].status() == GRUNNABLE by {
                zero_wakes_every_waiter(v, m, list@, i);
            }
        }
        true
    }

    /// Takes one off the counter.
    pub fn done(&mut self, rt: &mut Rt, m: Option<usize>) -> (zero: bool)
        requires
            old(self).wf(),
            old(rt).wf(),
            old(self).fits(old(rt)@.gs),
            !old(self).mu.locked,
            opt_below(m, old(rt)@.ms.len()),
            old(self).count > 0,
        ensures
            final(self).wf(),
            final(rt).wf(),
            final(self).fits(final(rt)@.gs),
            !final(self).mu.locked,
            final(self).count == old(self).count - 1,
            zero == (final(self).count == 0),
            final(self).waiters@ == (if zero {
                Seq::empty()
            } else {
                old(self).waiters@
            }),
            final(rt)@ == (if zero {
                old(rt)@.let_go(m, old(self).waiters@, old(self).waiters@.len())
            } else {
                old(rt)@
            }),
            forall|i: int|
                zero && 0 <= i < old(self).waiters@.len() ==> {
                    let g = final(rt)@.gs[(#[trigger] old(self).waiters@[i]) as int];
                    g.readiness() == Ready::NotNeeded && g.waiting_wg is None
                },
            forall|i: int|
                zero && 0 <= i < old(self).waiters@.len() && old(rt)@.gs[(
                #[trigger] old(self).waiters@[i]) as int].status() == GWAITING
                    ==> final(rt)@.gs[old(self).waiters@[i] as int].status() == GRUNNABLE,
            forall|g: int|
                0 <= g < old(rt)@.gs.len() && !old(self).waiters@.contains(g as usize)
                    ==> #[trigger] final(rt)@.gs[g] == old(rt)@.gs[g],
    {
        self.add(rt, m, -1)
    }

    /// Begins to wait until the counter is zero: as goroutine `gp` on thread `m`,
    /// or as a thread outside the scheduler.  The group is known as `me`.
    ///
    /// A goroutine that is to park holds the group's lock until it has parked,
    /// so that nobody tries to wake it before.
    pub fn wait(&mut self, rt: &mut Rt, runs: Option<(usize, usize)>, me: usize) -> (step: WaitStep)
        requires
            old(self).wf(),
            old(rt).wf(),
            old(self).fits(old(rt)@.gs),
            !old(self).mu.locked,
            runs matches Some((m, gp)) ==> m < old(rt)@.ms.len() && gp < old(rt)@.gs.len()
                && old(rt)@.ms[m as int].locks < i32::MAX,
        ensures
            final(self).wf(),
            final(rt).wf(),
            final(self).fits(final(rt)@.gs),
            final(self).count == old(self).count,
            step == (if old(self).count == 0 {
                WaitStep::Done
            } else if runs is Some {
                WaitStep::Park
            } else {
                WaitStep::Sleep
            }),
            final(self).mu.locked == (step == WaitStep::Park),
            step != WaitStep::Park ==> final(rt)@ == old(rt)@ && final(self).waiters@
                == old(self).waiters@,
            runs matches Some((m, gp)) ==> (step == WaitStep::Park ==> final(rt)@ == old(rt)@.waits_on(
                m as int,
                gp as int,
                me,
            ) && final(self).waiters@ == old(self).waiters@.push(gp)),
    {
        if self.count == 0 {
            return WaitStep::Done;
        }
        match runs {
            None => WaitStep::Sleep,
            Some((m, gp)) => {
                rt.ms[m].lock();
                let _ = self.mu.try_lock();
                self.waiters.push(gp);
                rt.gs[gp].waiting_wg = Some(me);
                assert(rt@.ps =~= old(rt)@.ps);
                rt.gopark_commit(gp, WaitReason::Semacquire, ParkUnlock { lock: me });
                assert(rt@ =~= old(rt)@.waits_on(m as int, gp as int, me));
                WaitStep::Park
            },
        }
    }

    /// Releases the lock, after the goroutine that began to wait has parked.
    pub fn parked(&mut self, rt: &Rt)
        requires
            old(self).wf(),
            old(self).fits(rt@.gs),
            old(self).mu.locked,
            settled(old(self).waiters@, rt@.gs),
        ensures
            final(self).wf(),
            final(self).fits(rt@.gs),
            !final(self).mu.locked,
            final(self).count == old(self).count,
            final(self).waiters@ == old(self).waiters@,
    {
        self.mu.unlock();
    }
}

impl Default for WaitGroup {
    fn default() -> (wg: Self)
        ensures
            wg.wf(),
            !wg.mu.locked,
            wg.count == 0,
            wg.waiters@ == Seq::<usize>::empty(),
    {
        WaitGroup::new()
    }
}

/// When the counter comes to zero, every goroutine that was parked on the group
/// is runnable again.
pub proof fn zero_wakes_every_waiter(v: RtView, m: Option<usize>, list: Seq<usize>, i: int)
    requires
        v.names(),
        opt_below(m, v.ms.len()),
        all_below(list, v.gs.len()),
        settled(list, v.gs),
        0 <= i < list.len(),
        v.gs[list[i] as int].status() == GWAITING,
    ensures
        v.let_go(m, list, list.len()).gs[list[i] as int].status() == GRUNNABLE,
{
    lemma_woken_runs(v, m, list, list.len(), i);
}

/// A goroutine that began to wait on a group while the lock was free can be
/// woken as soon as it has parked: the lock that is then released is the
/// group's, the thread's count of locks is back where it was, and no waiter is
/// just about to park.
pub proof fn parked_waiter_can_be_woken(
    v: RtView,
    m: int,
    gp: usize,
    wg: usize,
    waiters: Seq<usize>,
)
    requires
        all_below(waiters, v.gs.len()),
        settled(waiters, v.gs),
        gp < v.gs.len(),
        0 <= m < v.ms.len(),
        v.ms[m].locks < i32::MAX,
    ensures
        ({
            let w = v.waits_on(m, gp as int, wg);
            let z = w.parked(m, gp as int);
            &&& w.gs[gp as int].park_unlock == Some(ParkUnlock { lock: wg })
            &&& z.ms[m].locks == v.ms[m].locks
            &&& settled(waiters.push(gp), z.gs)
            &&& z.gs[gp as int].readiness() == Ready::Readied
        }),
{
    scan_flag_hides_nothing(GWAITING);
    let z = v.waits_on(m, gp as int, wg).parked(m, gp as int);
    let list = waiters.push(gp);
    assert forall|i: int| 0 <= i < list.len() implies z.gs[(#[trigger] list[i]) as int].readiness()
        != Ready::Spin by {
        if i < waiters.len() {
            assert(list[i] == waiters[i]);
        }
    }
}

proof fn lemma_woken_runs(v: RtView, m: Option<usize>, list: Seq<usize>, n: nat, i: int)
    requires
        v.names(),
        opt_below(m, v.ms.len()),
        all_below(list, v.gs.len()),
        settled(list, v.gs),
        0 <= i < list.len(),
        n <= list.len(),
        v.gs[list[i] as int].status() == GWAITING,
    ensures
        ({
            let s = v.let_go(m, list, n).gs[list[i] as int].status();
            s == GRUNNABLE || s == GWAITING && i >= n
        }),
    decreases n,
{
    scan_flag_hides_nothing(GRUNNABLE);
    scan_flag_hides_nothing(GWAITING);
    if n > 0 {
        let k = (n - 1) as nat;
        lemma_woken_runs(v, m, list, k, i);
        lemma_let_go(v, m, list, k);
        lemma_let_go(v, m, list, n);
        let a = v.let_go(m, list, k);
        let gp = list[k as int];
        let b = a.with_g(gp as int, G { waiting_wg: None, ..a.gs[gp as int] });
        assert(b.gs[gp as int].readiness() == a.gs[gp as int].readiness());
        assert(b.gs.len() == a.gs.len());
        with_g_keeps_names(a, gp as int, G { waiting_wg: None, ..a.gs[gp as int] });
        ready_touches_only_its_goroutine(b, m, gp);
    }
}

/// The goroutines that are let go from outside the scheduler wait on the global
/// queue, behind all others, in the order in which they came.
pub proof fn the_released_queue_in_order(v: RtView, list: Seq<usize>, n: nat)
    requires
        v.names(),
        all_below(list, v.gs.len()),
        list.no_duplicates(),
        settled(list, v.gs),
        n <= list.len(),
        forall|i: int|
            0 <= i < list.len() ==> v.gs[(#[trigger] list[i]) as int].atomicstatus == GWAITING,
    ensures
        v.let_go(None, list, n).global == v.global + list.take(n as int),
    decreases n,
{
    if n > 0 {
        let k = (n - 1) as nat;
        the_released_queue_in_order(v, list, k);
        lemma_let_go(v, None, list, k);
        let a = v.let_go(None, list, k);
        let gp = list[k as int];
        assert(!list.take(k as int).contains(gp)) by {
            if list.take(k as int).contains(gp) {
                let i = list.take(k as int).index_of(gp);
                assert(list[i] == list[k as int]);
            }
        }
        assert(a.gs[gp as int] == v.gs[gp as int]);
        let b = a.with_g(gp as int, G { waiting_wg: None, ..a.gs[gp as int] });
        lemma_parked_status(b.gs[gp as int]);
        assert(v.let_go(None, list, n).global =~= a.global.push(gp));
        assert(v.global + list.take(n as int) =~= (v.global + list.take(k as int)).push(gp));
    } else {
        assert(v.global + list.take(0) =~= v.global);
    }
}

/// Who begins to wait on a group is marked as waiting for it, with the group's
/// lock to be released once it has parked; its thread is not preempted until
/// then; and nobody else notices.
pub proof fn beginning_to_wait_marks_the_waiter(v: RtView, m: int, gp: int, wg: usize, g: int, t: int)
    requires
        0 <= m < v.ms.len(),
        0 <= gp < v.gs.len(),
        0 <= g < v.gs.len(),
        0 <= t < v.ms.len(),
        v.ms[m].locks < i32::MAX,
    ensures
        ({
            let w = v.waits_on(m, gp, wg);
            let x = w.gs[gp];
            let y = v.gs[gp];
            &&& x.waiting_wg == Some(wg) && x.park_unlock == Some(ParkUnlock { lock: wg })
            &&& x.waitreason == WaitReason::Semacquire
            &&& x.atomicstatus == y.atomicstatus && x.stack == y.stack && x.sched == y.sched && x.m
                == y.m && x.goid == y.goid && x.param == y.param && x.selectdone == y.selectdone
                && x.preempt == y.preempt && x.stackguard0 == y.stackguard0
            &&& g != gp ==> w.gs[g] == v.gs[g]
            &&& w.ms[m].locks == v.ms[m].locks + 1
            &&& w.ms[m].p == v.ms[m].p && w.ms[m].curg == v.ms[m].curg
            &&& t != m ==> w.ms[t] == v.ms[t]
            &&& w == (RtView { gs: w.gs, ms: w.ms, ..v })
            &&& w.ms[m] == (M { locks: w.ms[m].locks, ..v.ms[m] })
        }),
{
}

/// Letting goroutines go changes nothing but goroutines, queues and who is brought
/// to work.
pub proof fn letting_go_changes_no_more(v: RtView, m: Option<usize>, list: Seq<usize>, n: nat)
    requires
        v.names(),
        opt_below(m, v.ms.len()),
        all_below(list, v.gs.len()),
        n <= list.len(),
    ensures
        ({
            let w = v.let_go(m, list, n);
            w == (RtView {
                gs: w.gs,
                ps: w.ps,
                ms: w.ms,
                global: w.global,
                idle_p: w.idle_p,
                idle_m: w.idle_m,
                ..v
            })
        }),
    decreases n,
{
    if n > 0 {
        letting_go_changes_no_more(v, m, list, (n - 1) as nat);
    }
}

/// The goroutine that is let go last from a thread that holds a processor, if it
/// was parked, is the next to run there.
pub proof fn the_last_released_runs_next(v: RtView, m: usize, list: Seq<usize>, p: usize)
    requires
        v.names(),
        m < v.ms.len(),
        v.ms[m as int].p == Some(p),
        all_below(list, v.gs.len()),
        list.no_duplicates(),
        settled(list, v.gs),
        list.len() > 0,
        v.gs[list.last() as int].atomicstatus == GWAITING,
    ensures
        v.let_go(Some(m), list, (list.len() - 1) as nat).ms[m as int].p == Some(p)
            ==> v.let_go(Some(m), list, list.len()).ps[p as int].runnext == Some(list.last()),
{
    let k = (list.len() - 1) as nat;
    lemma_let_go(v, Some(m), list, k);
    let a = v.let_go(Some(m), list, k);
    let gp = list.last();
    assert(!list.take(k as int).contains(gp)) by {
        if list.take(k as int).contains(gp) {
            let i = list.take(k as int).index_of(gp);
            assert(list[i] == list[k as int]);
        }
    }
    assert(a.gs[gp as int] == v.gs[gp as int]);
    let b = a.with_g(gp as int, G { waiting_wg: None, ..a.gs[gp as int] });
    with_g_keeps_names(a, gp as int, G { waiting_wg: None, ..a.gs[gp as int] });
    crate::runtime::park::a_readied_goroutine_is_queued(b, Some(m), gp);
}

} // verus!
