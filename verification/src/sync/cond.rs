//! Waiting until somebody says that a condition may hold.

use vstd::prelude::*;

use std::collections::VecDeque;

use crate::runtime::g::{
    scan_flag_hides_nothing, ParkUnlock, WaitReason, G, GRUNNABLE, GWAITING,
};
use crate::runtime::m::M;
use crate::runtime::park::{everyone_on_the_list_is_readied, Ready};
use crate::runtime::rawmutex::RawMutex;
use crate::runtime::sched::{all_below, opt_below, Rt, RtView};
use crate::sync::waitgroup::settled;

verus! {

/// A condition on which goroutines wait.
pub struct Cond {
    /// Held while the queue changes, and by a goroutine that waits until it is
    /// safely parked.
    pub mu: RawMutex,
    /// Who waits; who has waited longest is first.
    pub waitq: VecDeque<usize>,
}

impl RtView {
    /// Goroutine `gp`, on thread `m`, waits on the condition `cond`, whose lock
    /// is to be released after it has parked.
    pub open spec fn waits_for(self, m: int, gp: int, cond: usize) -> RtView {
        let g = self.gs[gp];
        self.with_m(m, M { locks: (self.ms[m].locks + 1) as i32, ..self.ms[m] }).with_g(
            gp,
            G {
                waitreason: WaitReason::CondVar,
                park_unlock: Some(ParkUnlock { lock: cond }),
                ..g
            },
        )
    }
}

impl Cond {
    /// The goroutines that wait exist; while the lock is free, they have parked.
    pub open spec fn fits(self, gs: Seq<G>) -> bool {
        &&& all_below(self.waitq@, gs.len())
        &&& !self.mu.locked ==> settled(self.waitq@, gs)
    }

    /// A condition on which nobody waits.
    pub fn new() -> (c: Cond)
        ensures
            !c.mu.locked,
            c.waitq@ == Seq::<usize>::empty(),
    {
        Cond { mu: RawMutex::new(), waitq: VecDeque::new() }
    }

    /// Lets goroutine `gp`, on thread `m`, wait.  The condition is known as
    /// `me`.
    ///
    /// The goroutine then releases the user's lock and parks.  It holds the
    /// condition's own lock until it has parked, so that nobody tries to wake it
    /// before.
    pub fn wait(&mut self, rt: &mut Rt, m: usize, gp: usize, me: usize)
        requires
            old(rt).wf(),
            old(self).fits(old(rt)@.gs),
            !old(self).mu.locked,
            m < old(rt)@.ms.len(),
            gp < old(rt)@.gs.len(),
            old(rt)@.ms[m as int].locks < i32::MAX,
        ensures
            final(rt).wf(),
            final(self).fits(final(rt)@.gs),
            final(self).mu.locked,
            final(self).waitq@ == old(self).waitq@.push(gp),
            final(rt)@ == old(rt)@.waits_for(m as int, gp as int, me),
    {
        rt.ms[m].lock();
        let _ = self.mu.try_lock();
        self.waitq.push_back(gp);
        assert(rt@.ps =~= old(rt)@.ps);
        rt.gopark_commit(gp, WaitReason::CondVar, ParkUnlock { lock: me });
        assert(rt@ =~= old(rt)@.waits_for(m as int, gp as int, me));
    }

    /// Releases the lock, after the goroutine that began to wait has parked.
    pub fn parked(&mut self, rt: &Rt)
        requires
            old(self).fits(rt@.gs),
            old(self).mu.locked,
            settled(old(self).waitq@, rt@.gs),
        ensures
            final(self).fits(rt@.gs),
            !final(self).mu.locked,
            final(self).waitq@ == old(self).waitq@,
    {
        self.mu.unlock();
    }

    /// Wakes, from thread `m`, the goroutine that has waited longest, if there
    /// is one.
    pub fn notify_one(&mut self, rt: &mut Rt, m: Option<usize>) -> (woken: Option<usize>)
        requires
            old(rt).wf(),
            old(self).fits(old(rt)@.gs),
            !old(self).mu.locked,
            opt_below(m, old(rt)@.ms.len()),
        ensures
            final(rt).wf(),
            final(self).fits(final(rt)@.gs),
            !final(self).mu.locked,
            old(self).waitq@.len() == 0 ==> woken is None && final(self).waitq@ == old(self).waitq@
                && final(rt)@ == old(rt)@,
            old(self).waitq@.len() > 0 ==> woken == Some(old(self).waitq@[0]) && final(self).waitq@
                == old(self).waitq@.skip(1) && final(rt)@ == old(rt)@.readied(
                m,
                old(self).waitq@[0],
            ),
    {
        let _ = self.mu.try_lock();
        let woken: Option<usize> = self.waitq.pop_front();
        self.mu.unlock();
        match woken {
            None => {},
            Some(gp) => {
                let ghost q = old(self).waitq@;
                let ghost v = rt@;
                assert(q[0] == gp);
                assert(self.waitq@ =~= q.skip(1));
                rt.goready(m, gp);
                proof {
                    crate::runtime::park::ready_touches_only_its_goroutine(v, m, gp);
                    assert forall|i: int| 0 <= i < self.waitq@.len() implies rt@.gs[(
                    #[trigger] self.waitq@[i]) as int].readiness() != Ready::Spin by {
                        assert(self.waitq@[i] == q[i + 1]);
                        if q[i + 1] != gp {
                            assert(rt@.gs[q[i + 1] as int] == v.gs[q[i + 1] as int]);
                        }
                    }
                }
            },
        }
        woken
    }

    /// Wakes, from thread `m`, all goroutines that wait, in the order in which
    /// they came.
    pub fn notify_all(&mut self, rt: &mut Rt, m: Option<usize>)
        requires
            old(rt).wf(),
            old(self).fits(old(rt)@.gs),
            !old(self).mu.locked,
            opt_below(m, old(rt)@.ms.len()),
        ensures
            final(rt).wf(),
            final(self).fits(final(rt)@.gs),
            !final(self).mu.locked,
            final(self).waitq@ == Seq::<usize>::empty(),
            final(rt)@ == old(rt)@.all_readied(m, old(self).waitq@, old(self).waitq@.len()),
            final(rt)@.gs.len() == old(rt)@.gs.len(),
            forall|g: usize|
                g < old(rt)@.gs.len() ==> #[trigger] final(rt)@.gs[g as int] == (
                if old(self).waitq@.contains(g) && old(rt)@.gs[g as int].atomicstatus == GWAITING {
                    G { atomicstatus: GRUNNABLE, ..old(rt)@.gs[g as int] }
                } else {
                    old(rt)@.gs[g as int]
                }),
    {
        let _ = self.mu.try_lock();
        let mut list: Vec<usize> = Vec::new();
        let ghost q = self.waitq@;
        loop
            invariant
                list@ + self.waitq@ == q,
                self.mu.locked,
            ensures
                list@ == q,
                self.waitq@ == Seq::<usize>::empty(),
                self.mu.locked,
            decreases self.waitq@.len(),
        {
            let ghost rest = self.waitq@;
            let ghost before = list@;
            match self.waitq.pop_front() {
                None => {
                    assert(before + rest =~= before);
                    break ;
                },
                Some(gp) => {
                    list.push(gp);
                    assert(list@ + self.waitq@ =~= before + rest);
                },
            }
        }
        self.mu.unlock();
        rt.ready_all(m, &list);
    }
}

impl Default for Cond {
    fn default() -> (c: Self)
        ensures
            !c.mu.locked,
            c.waitq@ == Seq::<usize>::empty(),
    {
        Cond::new()
    }
}

/// One notification wakes one goroutine: the one that has waited longest becomes
/// runnable, and no other is touched.
pub proof fn notification_wakes_only_the_first(
    v: RtView,
    m: Option<usize>,
    waitq: Seq<usize>,
    g: int,
)
    requires
        v.names(),
        opt_below(m, v.ms.len()),
        waitq.len() > 0,
        all_below(waitq, v.gs.len()),
        v.gs[waitq[0] as int].readiness() == Ready::Readied,
        0 <= g < v.gs.len(),
    ensures
        g == waitq[0] ==> v.readied(m, waitq[0]).gs[g].status() == crate::runtime::g::GRUNNABLE,
        g != waitq[0] ==> v.readied(m, waitq[0]).gs[g] == v.gs[g],
{
    crate::runtime::g::scan_flag_hides_nothing(crate::runtime::g::GRUNNABLE);
    crate::runtime::park::ready_touches_only_its_goroutine(v, m, waitq[0]);
}

/// A notification to all wakes everyone who waits, however many they are: who
/// was parked is runnable.
pub proof fn notification_wakes_everyone(v: RtView, m: Option<usize>, waitq: Seq<usize>, i: int)
    requires
        v.names(),
        opt_below(m, v.ms.len()),
        all_below(waitq, v.gs.len()),
        0 <= i < waitq.len(),
        v.gs[waitq[i] as int].atomicstatus == GWAITING,
    ensures
        v.all_readied(m, waitq, waitq.len()).gs[waitq[i] as int] == (G {
            atomicstatus: GRUNNABLE,
            ..v.gs[waitq[i] as int]
        }),
{
    assert(waitq.contains(waitq[i]));
    everyone_on_the_list_is_readied(v, m, waitq, waitq[i]);
}

/// A goroutine that began to wait on a condition can be woken as soon as it has
/// parked: the lock that is then released is the condition's, the thread's count
/// of locks is back where it was, and nothing else was changed.
pub proof fn parked_waiter_can_be_notified(
    v: RtView,
    m: int,
    gp: usize,
    cond: usize,
    waitq: Seq<usize>,
)
    requires
        all_below(waitq, v.gs.len()),
        settled(waitq, v.gs),
        gp < v.gs.len(),
        0 <= m < v.ms.len(),
        v.ms[m].locks < i32::MAX,
    ensures
        ({
            let w = v.waits_for(m, gp as int, cond);
            let z = w.parked(m, gp as int);
            &&& w.ms[m].locks == v.ms[m].locks + 1
            &&& w.gs[gp as int].park_unlock == Some(ParkUnlock { lock: cond })
            &&& w.gs[gp as int].waitreason == WaitReason::CondVar
            &&& w.gs[gp as int].atomicstatus == v.gs[gp as int].atomicstatus
            &&& z.gs[gp as int].atomicstatus == GWAITING
            &&& z.gs[gp as int].park_unlock is None
            &&& z.ms[m].locks == v.ms[m].locks
            &&& z.ms[m].curg is None
            &&& settled(waitq.push(gp), z.gs)
            &&& z.ps == v.ps && z.global == v.global && z.idle_m == v.idle_m && z.idle_p
                == v.idle_p
            &&& forall|g: int| 0 <= g < v.gs.len() && g != gp ==> #[trigger] z.gs[g] == v.gs[g]
        }),
{
    scan_flag_hides_nothing(GWAITING);
    let z = v.waits_for(m, gp as int, cond).parked(m, gp as int);
    let list = waitq.push(gp);
    assert forall|i: int| 0 <= i < list.len() implies z.gs[(#[trigger] list[i]) as int].readiness()
        != Ready::Spin by {
        if i < waitq.len() {
            assert(list[i] == waitq[i]);
        }
    }
}

/// Who begins to wait for a condition leaves its lock to be released once it has
/// parked; its thread is not preempted until then; and nobody else notices.
pub proof fn beginning_to_wait_leaves_the_lock(v: RtView, m: int, gp: int, cond: usize)
    requires
        0 <= m < v.ms.len(),
        0 <= gp < v.gs.len(),
        v.ms[m].locks < i32::MAX,
    ensures
        ({
            let w = v.waits_for(m, gp, cond);
            &&& w.gs[gp] == (G {
                waitreason: WaitReason::CondVar,
                park_unlock: Some(ParkUnlock { lock: cond }),
                ..v.gs[gp]
            })
            &&& w.ms[m].locks == v.ms[m].locks + 1
            &&& w.ms[m] == (M { locks: w.ms[m].locks, ..v.ms[m] })
            &&& forall|g: int| 0 <= g < v.gs.len() && g != gp ==> #[trigger] w.gs[g] == v.gs[g]
            &&& forall|t: int| 0 <= t < v.ms.len() && t != m ==> #[trigger] w.ms[t] == v.ms[t]
            &&& w == (RtView { gs: w.gs, ms: w.ms, ..v })
        }),
{
}

} // verus!
