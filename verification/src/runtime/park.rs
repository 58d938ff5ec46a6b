//! Parking goroutines and making them ready again.

use vstd::prelude::*;

use super::g::{
    casgstatus, readgstatus, scan_flag_hides_nothing, ParkUnlock, WaitReason, G, GDEAD, GRUNNABLE,
    GRUNNING, GSCAN, GWAITING,
};
use super::m::{Tls, M};
use super::p::PView;
use super::sched::{
    all_below, lemma_last_wanted, lemma_started_names, opt_below, p_names, with_g_keeps_names, Rt,
    RtView,
};

verus! {

/// What became of a try to make a goroutine ready.
#[derive(Copy, Clone, Debug, PartialEq, Eq, Structural)]
pub enum Ready {
    /// It was parked and is now on a run queue.
    Readied,
    /// It needs no waking: it is runnable already, or has ended.
    NotNeeded,
    /// It is just about to park; the caller tries again.
    Spin,
}

impl G {
    /// What a try to make the goroutine ready comes to.
    pub open spec fn readiness(self) -> Ready {
        if self.status() == GWAITING && !self.scanning() {
            Ready::Readied
        } else if self.status() == GRUNNABLE || self.status() == GDEAD {
            Ready::NotNeeded
        } else {
            Ready::Spin
        }
    }
}

impl RtView {
    /// Goroutine `gp` waits to be run: as the next one on the processor of
    /// thread `m`, or else on the global queue.
    pub open spec fn enqueued(self, m: Option<usize>, gp: usize) -> RtView {
        if m is Some && self.ms[m->0 as int].p is Some {
            let p = self.ms[m->0 as int].p->0 as int;
            RtView {
                global: self.global + self.ps[p].put_spill(gp, true),
                ..self.with_p(p, self.ps[p].put(gp, true))
            }
        } else {
            RtView { global: self.global.push(gp), ..self }
        }
    }

    /// The state after `gp` was to be made ready from thread `m`.  A parked
    /// goroutine becomes runnable, is queued, and an idle thread is brought to
    /// work.
    pub open spec fn readied(self, m: Option<usize>, gp: usize) -> RtView {
        if self.gs[gp as int].readiness() == Ready::Readied {
            self.with_g(gp as int, G { atomicstatus: GRUNNABLE, ..self.gs[gp as int] }).enqueued(
                m,
                gp,
            ).started(None)
        } else {
            self
        }
    }

    /// The state after the first `n` of `list` were made ready, one by one.
    pub open spec fn all_readied(self, m: Option<usize>, list: Seq<usize>, n: nat) -> RtView
        decreases n,
    {
        if n == 0 {
            self
        } else {
            self.all_readied(m, list, (n - 1) as nat).readied(m, list[n - 1])
        }
    }

    /// The state after goroutine `gp`, which ran on thread `m`, has parked.
    pub open spec fn parked(self, m: int, gp: int) -> RtView {
        let g = self.gs[gp];
        self.with_g(gp, G { atomicstatus: GWAITING, m: None, park_unlock: None, ..g }).with_m(
            m,
            M {
                curg: None,
                locks: if g.park_unlock is Some {
                    (self.ms[m].locks - 1) as i32
                } else {
                    self.ms[m].locks
                },
                ..self.ms[m]
            },
        )
    }
}

/// Queueing keeps every name valid.
pub proof fn enqueue_keeps_names(v: RtView, m: Option<usize>, gp: usize)
    requires
        v.names(),
        opt_below(m, v.ms.len()),
        gp < v.gs.len(),
    ensures
        v.enqueued(m, gp).names(),
{
    if m is Some && v.ms[m->0 as int].p is Some {
        let p = v.ms[m->0 as int].p->0 as int;
        let x = v.ps[p];
        assert(p_names(x, v.gs.len(), v.ms.len()));
        assert(all_below(x.put(gp, true).ring, v.gs.len()));
        assert(all_below(x.put_spill(gp, true), v.gs.len()));
        assert(all_below(v.global + x.put_spill(gp, true), v.gs.len()));
        assert(p_names(x.put(gp, true), v.gs.len(), v.ms.len()));
    } else {
        assert(all_below(v.global.push(gp), v.gs.len()));
    }
}

impl Rt {
    /// Puts a runnable goroutine where it will be found.
    fn enqueue_ready(&mut self, m: Option<usize>, gp: usize)
        requires
            old(self).wf(),
            opt_below(m, old(self)@.ms.len()),
            gp < old(self)@.gs.len(),
        ensures
            final(self).wf(),
            final(self)@ == old(self)@.enqueued(m, gp),
    {
        proof {
            enqueue_keeps_names(self@, m, gp);
        }
        if let Some(mi) = m {
            if let Some(p) = self.ms[mi].p {
                self.ps[p].runqput(gp, true, &mut self.global_run_q);
                assert(self@.ps =~= old(self)@.enqueued(m, gp).ps);
                return ;
            }
        }
        self.global_run_q.push_batch(&[gp]);
        assert(self@.global =~= old(self)@.global.push(gp));
    }

    /// One try, from thread `m`, to make `gp` ready.
    pub fn goready_step(&mut self, m: Option<usize>, gp: usize) -> (r: Ready)
        requires
            old(self).wf(),
            opt_below(m, old(self)@.ms.len()),
            gp < old(self)@.gs.len(),
        ensures
            final(self).wf(),
            r == old(self)@.gs[gp as int].readiness(),
            final(self)@ == old(self)@.readied(m, gp),
    {
        let s: u32 = readgstatus(&self.gs[gp]);
        if s == GWAITING && self.gs[gp].atomicstatus & GSCAN == 0 {
            self.gs[gp].atomicstatus = GRUNNABLE;
            assert(self@.ps =~= old(self)@.ps);
            self.enqueue_ready(m, gp);
            self.startm(None);
            return Ready::Readied;
        }
        if s == GRUNNABLE || s == GDEAD {
            return Ready::NotNeeded;
        }
        Ready::Spin
    }

    /// Makes `gp`, which has parked or needs no waking, ready from thread `m`.
    pub fn goready(&mut self, m: Option<usize>, gp: usize)
        requires
            old(self).wf(),
            opt_below(m, old(self)@.ms.len()),
            gp < old(self)@.gs.len(),
            old(self)@.gs[gp as int].readiness() != Ready::Spin,
        ensures
            final(self).wf(),
            final(self)@ == old(self)@.readied(m, gp),
    {
        let _ = self.goready_step(m, gp);
    }

    /// Makes every goroutine of `list` ready, in order.
    pub fn ready_all(&mut self, m: Option<usize>, list: &Vec<usize>)
        requires
            old(self).wf(),
            opt_below(m, old(self)@.ms.len()),
            all_below(list@, old(self)@.gs.len()),
            forall|i: int|
                0 <= i < list@.len() ==> old(self)@.gs[(#[trigger] list@[i]) as int].readiness()
                    != Ready::Spin,
        ensures
            final(self).wf(),
            final(self)@ == old(self)@.all_readied(m, list@, list@.len()),
            final(self)@.gs.len() == old(self)@.gs.len(),
            forall|g: usize|
                g < old(self)@.gs.len() ==> #[trigger] final(self)@.gs[g as int] == (
                if list@.contains(g) && old(self)@.gs[g as int].atomicstatus == GWAITING {
                    G { atomicstatus: GRUNNABLE, ..old(self)@.gs[g as int] }
                } else {
                    old(self)@.gs[g as int]
                }),
    {
        let mut i: usize = 0;
        while i < list.len()
            invariant
                self.wf(),
                i <= list@.len(),
                self@.gs.len() == old(self)@.gs.len(),
                self@.ms.len() == old(self)@.ms.len(),
                opt_below(m, self@.ms.len()),
                all_below(list@, self@.gs.len()),
                forall|j: int|
                    0 <= j < list@.len() ==> self@.gs[(#[trigger] list@[j]) as int].readiness()
                        != Ready::Spin,
                self@ == old(self)@.all_readied(m, list@, i as nat),
            decreases list@.len() - i,
        {
            let ghost before = self@;
            self.goready(m, list[i]);
            proof {
                ready_touches_only_its_goroutine(before, m, list@[i as int]);
            }
            i = i + 1;
        }
        proof {
            lemma_all_readied(old(self)@, m, list@, list@.len());
            assert forall|g: usize| g < old(self)@.gs.len() implies #[trigger] self@.gs[g as int]
                == (if list@.contains(g) && old(self)@.gs[g as int].atomicstatus == GWAITING {
                G { atomicstatus: GRUNNABLE, ..old(self)@.gs[g as int] }
            } else {
                old(self)@.gs[g as int]
            }) by {
                everyone_on_the_list_is_readied(old(self)@, m, list@, g);
            }
        }
    }

    /// Notes why goroutine `gp`, which runs, is about to park.
    pub fn gopark(&mut self, gp: usize, reason: WaitReason)
        requires
            old(self).wf(),
            gp < old(self)@.gs.len(),
        ensures
            final(self).wf(),
            final(self)@ == old(self)@.with_g(
                gp as int,
                G { waitreason: reason, ..old(self)@.gs[gp as int] },
            ),
    {
        self.gs[gp].waitreason = reason;
        assert(self@.ps =~= old(self)@.ps);
    }

    /// As `gopark`; in addition names a lock that is to be released only when
    /// the goroutine is safely parked.
    pub fn gopark_commit(&mut self, gp: usize, reason: WaitReason, unlock: ParkUnlock)
        requires
            old(self).wf(),
            gp < old(self)@.gs.len(),
        ensures
            final(self).wf(),
            final(self)@ == old(self)@.with_g(
                gp as int,
                G {
                    waitreason: reason,
                    park_unlock: Some(unlock),
                    ..old(self)@.gs[gp as int]
                },
            ),
    {
        self.gs[gp].waitreason = reason;
        self.gs[gp].park_unlock = Some(unlock);
        assert(self@.ps =~= old(self)@.ps);
    }

    /// Parks goroutine `gp`, which ran on thread `m`.
    ///
    /// Gives back the lock that is now to be released, if there is one; the
    /// count that kept the thread from being preempted is taken back with it.
    pub fn park_fn(&mut self, tls: &mut Tls, m: usize, gp: usize) -> (unlock: Option<ParkUnlock>)
        requires
            old(self).wf(),
            m < old(self)@.ms.len(),
            gp < old(self)@.gs.len(),
            old(self)@.gs[gp as int].atomicstatus == GRUNNING,
            old(self)@.gs[gp as int].park_unlock is Some ==> old(self)@.ms[m as int].locks
                > i32::MIN,
        ensures
            final(self).wf(),
            unlock == old(self)@.gs[gp as int].park_unlock,
            final(self)@ == old(self)@.parked(m as int, gp as int),
            *final(tls) == (Tls { g: None, ..*old(tls) }),
    {
        let unlock = self.gs[gp].park_unlock;
        self.gs[gp].park_unlock = None;
        if unlock.is_some() {
            self.ms[m].unlock();
        }
        proof {
            scan_flag_hides_nothing(GRUNNING);
            scan_flag_hides_nothing(GWAITING);
        }
        casgstatus(&mut self.gs[gp], GRUNNING, GWAITING);
        self.gs[gp].m = None;
        self.ms[m].curg = None;
        tls.set_current_g(None);
        proof {
            let w = old(self)@.parked(m as int, gp as int);
            assert(self@.ps =~= w.ps);
            assert(self@.gs =~= w.gs);
            assert(self@.ms =~= w.ms);
        }
        unlock
    }
}

/// Making a goroutine ready touches no other goroutine, and leaves that one
/// runnable or as it was.
pub proof fn ready_touches_only_its_goroutine(v: RtView, m: Option<usize>, gp: usize)
    requires
        v.names(),
        opt_below(m, v.ms.len()),
        gp < v.gs.len(),
    ensures
        v.readied(m, gp).gs.len() == v.gs.len(),
        v.readied(m, gp).ms.len() == v.ms.len(),
        v.readied(m, gp).ps.len() == v.ps.len(),
        forall|g: int|
            0 <= g < v.gs.len() && g != gp ==> #[trigger] v.readied(m, gp).gs[g] == v.gs[g],
        v.gs[gp as int].readiness() == Ready::Readied ==> v.readied(m, gp).gs[gp as int] == (G {
            atomicstatus: GRUNNABLE,
            ..v.gs[gp as int]
        }) && v.readied(m, gp).gs[gp as int].readiness() == Ready::NotNeeded,
        v.gs[gp as int].readiness() != Ready::Readied ==> v.readied(m, gp) == v,
{
    scan_flag_hides_nothing(GRUNNABLE);
    let a = v.with_g(gp as int, G { atomicstatus: GRUNNABLE, ..v.gs[gp as int] });
    lemma_last_wanted(a.enqueued(m, gp), v.idle_p.len());
}

/// Making a goroutine ready keeps every name valid.
pub proof fn ready_keeps_names(v: RtView, m: Option<usize>, gp: usize)
    requires
        v.names(),
        opt_below(m, v.ms.len()),
        gp < v.gs.len(),
    ensures
        v.readied(m, gp).names(),
{
    let g = G { atomicstatus: GRUNNABLE, ..v.gs[gp as int] };
    with_g_keeps_names(v, gp as int, g);
    let a = v.with_g(gp as int, g);
    enqueue_keeps_names(a, m, gp);
    lemma_started_names(a.enqueued(m, gp), None);
}

/// Of the first `n` goroutines on a list, those that were parked are runnable;
/// every other goroutine is as it was.
proof fn lemma_all_readied(v: RtView, m: Option<usize>, list: Seq<usize>, n: nat)
    requires
        v.names(),
        opt_below(m, v.ms.len()),
        all_below(list, v.gs.len()),
        n <= list.len(),
    ensures
        ({
            let w = v.all_readied(m, list, n);
            &&& w.names()
            &&& w.gs.len() == v.gs.len()
            &&& w.ms.len() == v.ms.len()
            &&& w.ps.len() == v.ps.len()
            &&& forall|g: usize|
                g < v.gs.len() ==> #[trigger] w.gs[g as int] == (if list.take(n as int).contains(g)
                    && v.gs[g as int].readiness() == Ready::Readied {
                    G { atomicstatus: GRUNNABLE, ..v.gs[g as int] }
                } else {
                    v.gs[g as int]
                })
        }),
    decreases n,
{
    scan_flag_hides_nothing(GRUNNABLE);
    if n > 0 {
        let k = (n - 1) as nat;
        lemma_all_readied(v, m, list, k);
        let a = v.all_readied(m, list, k);
        let gp = list[k as int];
        ready_touches_only_its_goroutine(a, m, gp);
        ready_keeps_names(a, m, gp);
        let w = v.all_readied(m, list, n);
        assert forall|g: usize| g < v.gs.len() implies #[trigger] w.gs[g as int] == (
        if list.take(n as int).contains(g) && v.gs[g as int].readiness() == Ready::Readied {
            G { atomicstatus: GRUNNABLE, ..v.gs[g as int] }
        } else {
            v.gs[g as int]
        }) by {
            let s = list.take(k as int);
            let t = list.take(n as int);
            assert(t =~= s.push(gp));
            assert(t[k as int] == gp);
            assert(t.contains(g) <==> s.contains(g) || g == gp) by {
                if s.contains(g) {
                    assert(t[s.index_of(g)] == g);
                }
                if t.contains(g) && g != gp {
                    assert(s[t.index_of(g)] == g);
                }
            }
            assert(a.gs[g as int] == a.gs[g as int]);
            if g != gp {
                assert(w.gs[g as int] == a.gs[g as int]);
            }
        }
    } else {
        assert(list.take(0).len() == 0);
    }
}

/// Making a list of goroutines ready reaches every one of them, however long the
/// list is: who was parked is runnable, and nothing else about it has changed.
/// Nobody else is touched.
pub proof fn everyone_on_the_list_is_readied(
    v: RtView,
    m: Option<usize>,
    list: Seq<usize>,
    g: usize,
)
    requires
        v.names(),
        opt_below(m, v.ms.len()),
        all_below(list, v.gs.len()),
        g < v.gs.len(),
    ensures
        ({
            let a = v.gs[g as int];
            let b = v.all_readied(m, list, list.len()).gs[g as int];
            &&& list.contains(g) && a.atomicstatus == GWAITING ==> b == (G {
                atomicstatus: GRUNNABLE,
                ..a
            })
            &&& list.contains(g) && a.atomicstatus != GWAITING ==> b == a
            &&& !list.contains(g) ==> b == a
        }),
{
    lemma_all_readied(v, m, list, list.len());
    assert(list.take(list.len() as int) =~= list);
    lemma_parked_status(v.gs[g as int]);
}

/// A goroutine can be made ready exactly when its status word says that it is
/// parked, and nothing else.
pub proof fn lemma_parked_status(g: G)
    ensures
        g.readiness() == Ready::Readied <==> g.atomicstatus == GWAITING,
        g.status() == GWAITING && !g.scanning() <==> g.atomicstatus == GWAITING,
{
    let s = g.atomicstatus;
    assert(s & !0x1000u32 == 4 && s & 0x1000u32 == 0 <==> s == 4) by (bit_vector);
}

/// Goroutines that are made ready from outside the scheduler wait on the global
/// queue, behind all others, in the order of the list.
pub proof fn readied_outside_queue_in_order(v: RtView, list: Seq<usize>, n: nat)
    requires
        v.names(),
        all_below(list, v.gs.len()),
        list.no_duplicates(),
        n <= list.len(),
        forall|i: int|
            0 <= i < list.len() ==> v.gs[(#[trigger] list[i]) as int].atomicstatus == GWAITING,
    ensures
        v.all_readied(None, list, n).global == v.global + list.take(n as int),
    decreases n,
{
    if n > 0 {
        let k = (n - 1) as nat;
        readied_outside_queue_in_order(v, list, k);
        lemma_all_readied(v, None, list, k);
        let a = v.all_readied(None, list, k);
        let gp = list[k as int];
        assert(!list.take(k as int).contains(gp)) by {
            if list.take(k as int).contains(gp) {
                let i = list.take(k as int).index_of(gp);
                assert(list[i] == list[k as int]);
            }
        }
        assert(a.gs[gp as int] == v.gs[gp as int]);
        lemma_parked_status(a.gs[gp as int]);
        assert(v.all_readied(None, list, n).global =~= a.global.push(gp));
        assert(v.global + list.take(n as int) =~= (v.global + list.take(k as int)).push(gp));
    } else {
        assert(v.global + list.take(0) =~= v.global);
    }
}

/// A goroutine that is made ready on a thread with a processor is the next to run
/// there; otherwise it waits on the global queue behind all others.
pub proof fn a_readied_goroutine_is_queued(v: RtView, m: Option<usize>, gp: usize)
    requires
        v.names(),
        opt_below(m, v.ms.len()),
        gp < v.gs.len(),
        v.gs[gp as int].atomicstatus == GWAITING,
    ensures
        ({
            let w = v.readied(m, gp);
            let own = if m is Some {
                v.ms[m->0 as int].p
            } else {
                None
            };
            &&& own is None ==> w.global == v.global.push(gp)
            &&& own is None ==> forall|p: int|
                0 <= p < v.ps.len() ==> (#[trigger] w.ps[p]).ring == v.ps[p].ring && w.ps[p].runnext
                    == v.ps[p].runnext
            &&& own matches Some(p) ==> w.ps[p as int].runnext == Some(gp)
            &&& own matches Some(p) ==> (v.ps[p as int].ring.len() < 256 ==> w.global == v.global)
            &&& own matches Some(p) ==> (v.ps[p as int].runnext is None ==> w.global == v.global
                && w.ps[p as int].ring == v.ps[p as int].ring)
            &&& own matches Some(p) ==> (v.ps[p as int].runnext matches Some(d) ==> {
                let x = v.ps[p as int].ring;
                &&& x.len() < 256 ==> w.ps[p as int].ring == x.push(d)
                &&& x.len() == 256 ==> w.ps[p as int].ring == x.skip(128) && w.global == v.global
                    + x.take(128).push(d)
            })
            &&& own matches Some(p) ==> forall|q: int|
                0 <= q < v.ps.len() && q != p ==> (#[trigger] w.ps[q]).ring == v.ps[q].ring
                    && w.ps[q].runnext == v.ps[q].runnext
            &&& w.allg == v.allg && w.g_free == v.g_free && w.next_goid == v.next_goid
        }),
{
    lemma_parked_status(v.gs[gp as int]);
    let a = v.with_g(gp as int, G { atomicstatus: GRUNNABLE, ..v.gs[gp as int] });
    with_g_keeps_names(v, gp as int, G { atomicstatus: GRUNNABLE, ..v.gs[gp as int] });
    enqueue_keeps_names(a, m, gp);
    let b = a.enqueued(m, gp);
    lemma_last_wanted(b, b.idle_p.len());
    if m is Some {
        assert(super::sched::m_names(v.ms[m->0 as int], v.gs.len(), v.ps.len()));
        if v.ms[m->0 as int].p is Some {
            let p = v.ms[m->0 as int].p->0 as int;
            if v.ps[p].ring.len() < 256 {
                super::p::the_displaced_goes_to_the_back(v.ps[p], gp);
                assert(a.global + v.ps[p].put_spill(gp, true) =~= v.global);
            }
            if v.ps[p].runnext is None {
                assert(a.global + v.ps[p].put_spill(gp, true) =~= v.global);
            }
            super::p::put_next_runs_next(v.ps[p], gp);
        }
    }
}

/// A goroutine that parks waits, on no thread; its thread is free for another, and
/// the lock that the goroutine left held, if any, is no longer counted there.
/// Nothing else changes.
pub proof fn a_parked_goroutine_waits(v: RtView, m: int, gp: int)
    requires
        0 <= m < v.ms.len(),
        0 <= gp < v.gs.len(),
        v.ms[m].locks > i32::MIN,
    ensures
        ({
            let w = v.parked(m, gp);
            &&& w.gs[gp] == (G { atomicstatus: GWAITING, m: None, park_unlock: None, ..v.gs[gp] })
            &&& w.ms[m].curg is None && w.ms[m].p == v.ms[m].p
            &&& w.ms[m].locks == v.ms[m].locks - (if v.gs[gp].park_unlock is Some {
                1int
            } else {
                0
            })
            &&& forall|g: int| 0 <= g < v.gs.len() && g != gp ==> #[trigger] w.gs[g] == v.gs[g]
            &&& forall|t: int| 0 <= t < v.ms.len() && t != m ==> #[trigger] w.ms[t] == v.ms[t]
            &&& w.ps == v.ps && w.global == v.global && w.idle_m == v.idle_m && w.idle_p
                == v.idle_p && w.allg == v.allg
        }),
{
}

/// Parking and being made ready undo each other: the goroutine is runnable, with
/// all it had but for the lock that was released.
pub proof fn a_parked_goroutine_can_be_readied(
    v: RtView,
    m: int,
    gp: usize,
    by: Option<usize>,
)
    requires
        v.names(),
        0 <= m < v.ms.len(),
        gp < v.gs.len(),
        v.ms[m].locks > i32::MIN,
        opt_below(by, v.ms.len()),
        v.parked(m, gp as int).names(),
    ensures
        v.parked(m, gp as int).readied(by, gp).gs[gp as int] == (G {
            atomicstatus: GRUNNABLE,
            m: None,
            park_unlock: None,
            ..v.gs[gp as int]
        }),
{
    let w = v.parked(m, gp as int);
    lemma_parked_status(w.gs[gp as int]);
    ready_touches_only_its_goroutine(w, by, gp);
}

/// A goroutine that needs no waking is told from one that is just about to park:
/// runnable and dead ones need none; whoever still runs, or is being scanned while
/// it waits, is to be tried again.
pub proof fn who_needs_waking(g: G)
    requires
        g.atomicstatus < 0x1000,
    ensures
        g.readiness() == Ready::Readied <==> g.atomicstatus == 4,
        g.readiness() == Ready::NotNeeded <==> g.atomicstatus == 1 || g.atomicstatus == 6,
        (G { atomicstatus: 0x1000 | g.atomicstatus, ..g }).readiness() != Ready::Readied,
{
    scan_flag_hides_nothing(g.atomicstatus);
    lemma_parked_status(G { atomicstatus: 0x1000 | g.atomicstatus, ..g });
    let s = g.atomicstatus;
    assert(0x1000u32 | s != 4) by (bit_vector);
}

/// Making a goroutine ready changes nothing but its status, where it is queued and
/// who is brought to work.
pub proof fn readying_changes_no_more(v: RtView, m: Option<usize>, gp: usize, q: int, t: int)
    requires
        v.names(),
        opt_below(m, v.ms.len()),
        gp < v.gs.len(),
        0 <= q < v.ps.len(),
        0 <= t < v.ms.len(),
    ensures
        ({
            let w = v.readied(m, gp);
            &&& w == (RtView {
                gs: w.gs,
                ps: w.ps,
                ms: w.ms,
                global: w.global,
                idle_p: w.idle_p,
                idle_m: w.idle_m,
                ..v
            })
            &&& w.gs.len() == v.gs.len() && w.ps.len() == v.ps.len() && w.ms.len() == v.ms.len()
            &&& w.gs[gp as int] == (G { atomicstatus: w.gs[gp as int].atomicstatus, ..v.gs[gp as int] })
            &&& w.ps[q] == (PView {
                status: w.ps[q].status,
                m: w.ps[q].m,
                ring: w.ps[q].ring,
                runnext: w.ps[q].runnext,
                ..v.ps[q]
            })
            &&& w.ms[t] == (M { p: w.ms[t].p, park: w.ms[t].park, ..v.ms[t] })
            &&& v.gs[gp as int].atomicstatus != 4 ==> w == v
        }),
{
    lemma_parked_status(v.gs[gp as int]);
    if v.gs[gp as int].atomicstatus == GWAITING {
        let x = G { atomicstatus: GRUNNABLE, ..v.gs[gp as int] };
        with_g_keeps_names(v, gp as int, x);
        let a = v.with_g(gp as int, x);
        enqueue_keeps_names(a, m, gp);
        let b = a.enqueued(m, gp);
        super::sched::starting_changes_no_more(b, None, q, t);
        if m is Some {
            assert(super::sched::m_names(v.ms[m->0 as int], v.gs.len(), v.ps.len()));
        }
    }
}

/// A goroutine that is made ready does not wait while a thread sleeps that could
/// have a processor: the thread is woken with one that is wanted.
pub proof fn readying_brings_a_thread_to_work(v: RtView, m: Option<usize>, gp: usize, i: int)
    requires
        v.names(),
        opt_below(m, v.ms.len()),
        gp < v.gs.len(),
        v.gs[gp as int].atomicstatus == GWAITING,
        0 <= i < v.idle_p.len(),
        v.ps[v.idle_p[i] as int].id < v.gomaxprocs,
        forall|j: int|
            i < j < v.idle_p.len() ==> v.ps[(#[trigger] v.idle_p[j]) as int].id >= v.gomaxprocs,
        v.idle_m.len() > 0,
    ensures
        ({
            let w = v.readied(m, gp);
            let t = v.idle_m[v.idle_m.len() - 1];
            &&& w.idle_m == v.idle_m.take(v.idle_m.len() - 1)
            &&& w.idle_p == v.idle_p.take(i) + v.idle_p.skip(i + 1)
            &&& w.ms[t as int].p == Some(v.idle_p[i]) && w.ms[t as int].park.flag
            &&& w.ps[v.idle_p[i] as int].status == 1 && w.ps[v.idle_p[i] as int].m == Some(t)
        }),
{
    lemma_parked_status(v.gs[gp as int]);
    let x = G { atomicstatus: GRUNNABLE, ..v.gs[gp as int] };
    with_g_keeps_names(v, gp as int, x);
    let a = v.with_g(gp as int, x);
    enqueue_keeps_names(a, m, gp);
    let b = a.enqueued(m, gp);
    if m is Some {
        assert(super::sched::m_names(v.ms[m->0 as int], v.gs.len(), v.ps.len()));
    }
    assert(forall|p: int| 0 <= p < v.ps.len() ==> (#[trigger] b.ps[p]).id == v.ps[p].id);
    assert forall|j: int| i < j < b.idle_p.len() implies b.ps[(
    #[trigger] b.idle_p[j]) as int].id >= b.gomaxprocs by {
        assert(v.idle_p[j] < v.ps.len());
    }
    assert(v.idle_p[i] < v.ps.len());
    super::sched::an_idle_processor_is_brought_to_work(b, i);
}

/// Parking changes nothing but the goroutine and its thread, and of the thread only
/// what it runs and its count of locks.
pub proof fn parking_changes_no_more(v: RtView, m: int, gp: int)
    requires
        0 <= m < v.ms.len(),
        0 <= gp < v.gs.len(),
    ensures
        ({
            let w = v.parked(m, gp);
            &&& w == (RtView { gs: w.gs, ms: w.ms, ..v })
            &&& w.ms[m] == (M { curg: None, locks: w.ms[m].locks, ..v.ms[m] })
        }),
{
}

/// Making a whole list ready changes nothing but goroutines, queues and who is
/// brought to work.
pub proof fn readying_a_list_changes_no_more(
    v: RtView,
    m: Option<usize>,
    list: Seq<usize>,
    n: nat,
)
    requires
        v.names(),
        opt_below(m, v.ms.len()),
        all_below(list, v.gs.len()),
        n <= list.len(),
    ensures
        ({
            let w = v.all_readied(m, list, n);
            w == (RtView {
                gs: w.gs,
                ps: w.ps,
                ms: w.ms,
                global: w.global,
                idle_p: w.idle_p,
                idle_m: w.idle_m,
                ..v
            })
        }),
    decreases n,
{
    if n > 0 {
        let k = (n - 1) as nat;
        readying_a_list_changes_no_more(v, m, list, k);
    }
}

} // verus!
