//! Letting go of a processor around calls that may block the thread.

use vstd::prelude::*;

use super::g::{G, GRUNNABLE};
use super::m::{Tls, M};
use super::p::{PView, PRUNNING, PSYSCALL};
use super::sched::{all_below, m_names, opt_below, Rt, RtView};

verus! {

/// How a thread comes out of a system call.
#[derive(Copy, Clone, Debug, PartialEq, Eq, Structural)]
pub enum ExitSyscall {
    /// It goes on with its goroutine.
    Resumed,
    /// There is no processor for it: its goroutine waits on the global queue,
    /// and the thread sleeps until it is woken to look for work.
    Sleep,
}

impl RtView {
    /// Thread `m` holds a processor that runs.
    pub open spec fn can_enter(self, m: Option<usize>) -> bool {
        &&& m is Some
        &&& self.ms[m->0 as int].p is Some
        &&& self.ps[self.ms[m->0 as int].p->0 as int].status == PRUNNING
    }

    /// The state after the thread has entered a system call: its processor is
    /// marked, and the thread has let go of it but remembers it.
    pub open spec fn entered(self, m: Option<usize>) -> RtView {
        if self.can_enter(m) {
            let mi = m->0 as int;
            let p = self.ms[mi].p->0 as int;
            self.with_p(
                p,
                PView {
                    status: PSYSCALL,
                    syscalltick: self.ps[p].syscalltick.wrapping_add(1),
                    ..self.ps[p]
                },
            ).with_m(mi, M { oldp: Some(p as usize), p: None, ..self.ms[mi] })
        } else {
            self
        }
    }

    /// The processor that thread `m` let go of is still there for it.
    pub open spec fn keeps_old(self, m: int) -> bool {
        self.ms[m].oldp is Some && self.ps[self.ms[m].oldp->0 as int].status == PSYSCALL
    }

    /// How a thread, which runs goroutine `g`, comes out of a system call.
    pub open spec fn exit_outcome(self, m: Option<usize>) -> ExitSyscall {
        if m is None || self.keeps_old(m->0 as int) || self.idle_p.len() > 0 {
            ExitSyscall::Resumed
        } else {
            ExitSyscall::Sleep
        }
    }

    /// The state after a thread, which runs goroutine `g`, has come out of a
    /// system call.
    pub open spec fn came_out(self, m: Option<usize>, g: Option<usize>) -> RtView {
        if m is None {
            self
        } else {
            let mi = m->0 as int;
            let v = self.with_m(mi, M { oldp: None, ..self.ms[mi] });
            if self.keeps_old(mi) {
                v.attached(mi, self.ms[mi].oldp->0 as int)
            } else if self.idle_p.len() > 0 {
                RtView {
                    idle_p: self.idle_p.drop_last(),
                    ..v.attached(mi, self.idle_p.last() as int)
                }
            } else {
                let w = match g {
                    None => v,
                    Some(g) => RtView {
                        global: v.global.push(g),
                        ..v.with_g(
                            g as int,
                            G { atomicstatus: GRUNNABLE, m: None, ..v.gs[g as int] },
                        ).with_m(mi, M { curg: None, ..v.ms[mi] })
                    },
                };
                RtView { idle_m: w.idle_m.push(m->0), ..w }
            }
        }
    }
}

impl Rt {
    /// Notes that the calling thread is about to make a system call.  Nothing
    /// happens outside of the scheduler, without a processor, or inside another
    /// system call.
    pub fn entersyscall(&mut self, tls: &Tls)
        requires
            old(self).wf(),
            opt_below(tls.m, old(self)@.ms.len()),
        ensures
            final(self).wf(),
            final(self)@ == old(self)@.entered(tls.m),
    {
        let m: usize = match tls.current_m() {
            None => {
                return ;
            },
            Some(m) => m,
        };
        assert(m_names(self@.ms[m as int], self@.gs.len(), self@.ps.len()));
        let p: usize = match self.ms[m].p {
            None => {
                return ;
            },
            Some(p) => p,
        };
        if self.ps[p].status != PRUNNING {
            return ;
        }
        self.ps[p].status = PSYSCALL;
        self.ps[p].syscalltick = self.ps[p].syscalltick.wrapping_add(1);
        self.ms[m].oldp = Some(p);
        self.ms[m].p = None;
        proof {
            let w = old(self)@.entered(tls.m);
            assert(self@.ps =~= w.ps);
            assert(self@.ms =~= w.ms);
        }
    }

    /// Brings the calling thread back from a system call: with the processor it
    /// had, if that is still free for it; else with an idle one; else its
    /// goroutine waits on the global queue and the thread goes idle.
    pub fn exitsyscall(&mut self, tls: &mut Tls) -> (r: ExitSyscall)
        requires
            old(self).wf(),
            opt_below(old(tls).m, old(self)@.ms.len()),
            opt_below(old(tls).g, old(self)@.gs.len()),
        ensures
            final(self).wf(),
            r == old(self)@.exit_outcome(old(tls).m),
            final(self)@ == old(self)@.came_out(old(tls).m, old(tls).g),
            *final(tls) == (if r is Sleep {
                Tls { g: None, ..*old(tls) }
            } else {
                *old(tls)
            }),
    {
        let m: usize = match tls.current_m() {
            None => {
                return ExitSyscall::Resumed;
            },
            Some(m) => m,
        };
        assert(m_names(self@.ms[m as int], self@.gs.len(), self@.ps.len()));
        let oldp = self.ms[m].oldp;
        if let Some(p) = oldp {
            if self.ps[p].status == PSYSCALL {
                self.ps[p].status = PRUNNING;
                self.ms[m].p = Some(p);
                self.ms[m].oldp = None;
                self.ps[p].m = Some(m);
                proof {
                    let w = old(self)@.came_out(tls.m, tls.g);
                    assert(self@.ps =~= w.ps);
                    assert(self@.ms =~= w.ms);
                }
                return ExitSyscall::Resumed;
            }
            self.ms[m].oldp = None;
        }
        proof {
            let v = old(self)@.with_m(m as int, M { oldp: None, ..old(self)@.ms[m as int] });
            assert(self@.ms =~= v.ms);
            assert(self@.ps =~= v.ps);
        }
        self.exitsyscall0(tls, m)
    }

    /// The slow way back: any idle processor, or sleep.
    fn exitsyscall0(&mut self, tls: &mut Tls, m: usize) -> (r: ExitSyscall)
        requires
            old(self).wf(),
            old(tls).m == Some(m),
            m < old(self)@.ms.len(),
            opt_below(old(tls).g, old(self)@.gs.len()),
            old(self)@.ms[m as int].oldp is None,
        ensures
            final(self).wf(),
            r == old(self)@.exit_outcome(Some(m)),
            final(self)@ == old(self)@.came_out(Some(m), old(tls).g),
            *final(tls) == (if r is Sleep {
                Tls { g: None, ..*old(tls) }
            } else {
                *old(tls)
            }),
    {
        proof {
            assert(self@.with_m(m as int, M { oldp: None, ..self@.ms[m as int] }).ms =~= self@.ms);
        }
        if let Some(p) = self.idle_p.pop() {
            self.ps[p].status = PRUNNING;
            self.ps[p].m = Some(m);
            self.ms[m].p = Some(p);
            proof {
                let w = old(self)@.came_out(Some(m), tls.g);
                assert(self@.ps =~= w.ps);
                assert(self@.ms =~= w.ms);
            }
            return ExitSyscall::Resumed;
        }
        if let Some(gp) = tls.current_g() {
            self.gs[gp].atomicstatus = GRUNNABLE;
            self.gs[gp].m = None;
            self.ms[m].curg = None;
            self.global_run_q.push_batch(&[gp]);
            proof {
                assert(self@.ps =~= old(self)@.ps);
                assert(self@.global =~= old(self)@.global.push(gp));
                assert(all_below(self@.global, self@.gs.len()));
                assert(self@.names());
            }
            self.startm(None);
        }
        tls.set_current_g(None);
        self.park_m_no_p(m);
        proof {
            let w = old(self)@.came_out(Some(m), old(tls).g);
            assert(self@.ps =~= w.ps);
            assert(self@.gs =~= w.gs);
            assert(self@.ms =~= w.ms);
        }
        ExitSyscall::Sleep
    }

    /// Puts a thread without a processor among the idle ones.
    fn park_m_no_p(&mut self, m: usize)
        requires
            old(self).wf(),
            m < old(self)@.ms.len(),
        ensures
            final(self).wf(),
            final(self)@ == (RtView { idle_m: old(self)@.idle_m.push(m), ..old(self)@ }),
    {
        self.idle_m.push(m);
        assert(self@.ps =~= old(self)@.ps);
    }
}

/// Runs `f` as a system call, and gives back its result.
pub fn with_syscall<F: FnOnce() -> R, R>(rt: &mut Rt, tls: &mut Tls, f: F) -> (r: (R, ExitSyscall))
    requires
        old(rt).wf(),
        opt_below(old(tls).m, old(rt)@.ms.len()),
        opt_below(old(tls).g, old(rt)@.gs.len()),
        f.requires(()),
    ensures
        final(rt).wf(),
        f.ensures((), r.0),
        r.1 == old(rt)@.entered(old(tls).m).exit_outcome(old(tls).m),
        final(rt)@ == old(rt)@.entered(old(tls).m).came_out(old(tls).m, old(tls).g),
        *final(tls) == (if r.1 is Sleep {
            Tls { g: None, ..*old(tls) }
        } else {
            *old(tls)
        }),
{
    rt.entersyscall(tls);
    let r = f();
    let out = rt.exitsyscall(tls);
    (r, out)
}

/// A system call during which nobody takes the processor away leaves the thread
/// as it was, with its processor; only the processor's count of calls has grown.
pub proof fn undisturbed_syscall_restores(v: RtView, m: usize, g: Option<usize>)
    requires
        v.names(),
        m < v.ms.len(),
        v.can_enter(Some(m)),
        v.ms[m as int].oldp is None,
    ensures
        v.entered(Some(m)).exit_outcome(Some(m)) == ExitSyscall::Resumed,
        ({
            let p = v.ms[m as int].p->0 as int;
            v.entered(Some(m)).came_out(Some(m), g) == v.with_p(
                p,
                PView {
                    m: Some(m),
                    syscalltick: v.ps[p].syscalltick.wrapping_add(1),
                    ..v.ps[p]
                },
            )
        }),
{
    let p = v.ms[m as int].p->0 as int;
    assert(m_names(v.ms[m as int], v.gs.len(), v.ps.len()));
    let w = v.with_p(
        p,
        PView { m: Some(m), syscalltick: v.ps[p].syscalltick.wrapping_add(1), ..v.ps[p] },
    );
    let x = v.entered(Some(m)).came_out(Some(m), g);
    assert(x.ps =~= w.ps);
    assert(x.ms =~= w.ms);
}

/// Outside of the scheduler a system call changes nothing.
pub proof fn syscall_outside_is_transparent(v: RtView, g: Option<usize>)
    ensures
        v.entered(None).came_out(None, g) == v,
        v.entered(None).exit_outcome(None) == ExitSyscall::Resumed,
{
}

/// Between entering and leaving, the thread holds no processor, and the one it
/// let go of can be taken away.
pub proof fn entered_lets_go(v: RtView, m: usize)
    requires
        v.names(),
        m < v.ms.len(),
        v.can_enter(Some(m)),
    ensures
        ({
            let w = v.entered(Some(m));
            w.ms[m as int].p is None && w.ms[m as int].oldp == v.ms[m as int].p
                && w.ps[v.ms[m as int].p->0 as int].status == PSYSCALL
        }),
{
    assert(m_names(v.ms[m as int], v.gs.len(), v.ps.len()));
}

/// A thread that enters a system call marks its processor, which has counted one
/// more call, and lets go of it; nothing else changes.  A thread without a running
/// processor changes nothing.
pub proof fn entering_marks_the_processor(v: RtView, m: usize)
    requires
        v.names(),
        m < v.ms.len(),
    ensures
        ({
            let w = v.entered(Some(m));
            let own = v.ms[m as int].p;
            let runs = own is Some && v.ps[own->0 as int].status == PRUNNING;
            &&& !runs ==> w == v
            &&& runs ==> w.ps[own->0 as int] == (PView {
                status: PSYSCALL,
                syscalltick: v.ps[own->0 as int].syscalltick.wrapping_add(1),
                ..v.ps[own->0 as int]
            })
            &&& runs ==> w.ms[m as int] == (M { p: None, oldp: own, ..v.ms[m as int] })
            &&& w.gs == v.gs && w.global == v.global && w.idle_m == v.idle_m && w.idle_p
                == v.idle_p
            &&& forall|p: int|
                0 <= p < v.ps.len() && own != Some(p as usize) ==> #[trigger] w.ps[p] == v.ps[p]
            &&& forall|t: int| 0 <= t < v.ms.len() && t != m ==> #[trigger] w.ms[t] == v.ms[t]
        }),
{
    assert(m_names(v.ms[m as int], v.gs.len(), v.ps.len()));
}

/// A thread comes out of a system call with the processor that it had, if that is
/// still marked for it; else with an idle one, which leaves the idle list; else
/// its goroutine is runnable, behind all others on the global queue, and the
/// thread is idle.  In the first two cases the goroutine goes on.
pub proof fn a_thread_comes_back_with_a_processor(v: RtView, m: usize, g: Option<usize>)
    requires
        v.names(),
        m < v.ms.len(),
        opt_below(g, v.gs.len()),
    ensures
        ({
            let w = v.came_out(Some(m), g);
            let r = v.exit_outcome(Some(m));
            let had = v.ms[m as int].oldp;
            let kept = had is Some && v.ps[had->0 as int].status == PSYSCALL;
            let n = v.idle_p.len();
            &&& r is Resumed <==> kept || n > 0
            &&& w.ms[m as int].oldp is None
            &&& kept ==> w.ms[m as int].p == had && w.ps[had->0 as int].status == PRUNNING
                && w.ps[had->0 as int].m == Some(m) && w.idle_p == v.idle_p
            &&& !kept && n > 0 ==> ({
                let p = v.idle_p[n - 1];
                &&& w.ms[m as int].p == Some(p) && w.ps[p as int].status == PRUNNING
                &&& w.ps[p as int].m == Some(m) && w.idle_p == v.idle_p.drop_last()
            })
            &&& kept || n > 0 ==> w.gs == v.gs && w.global == v.global && w.idle_m == v.idle_m
                && w.ms[m as int].curg == v.ms[m as int].curg
            &&& !kept && n == 0 ==> w.idle_m == v.idle_m.push(m) && w.ps == v.ps && w.idle_p
                == v.idle_p
            &&& !kept && n == 0 && g is Some ==> w.global == v.global.push(g->0)
                && w.gs[g->0 as int] == (G {
                atomicstatus: GRUNNABLE,
                m: None,
                ..v.gs[g->0 as int]
            }) && w.ms[m as int].curg is None
            &&& !kept && n == 0 && g is None ==> w.global == v.global && w.gs == v.gs
            &&& forall|t: int| 0 <= t < v.ms.len() && t != m ==> #[trigger] w.ms[t] == v.ms[t]
            &&& forall|x: int|
                0 <= x < v.gs.len() && g != Some(x as usize) ==> #[trigger] w.gs[x] == v.gs[x]
        }),
{
    assert(m_names(v.ms[m as int], v.gs.len(), v.ps.len()));
    if v.idle_p.len() > 0 {
        assert(v.idle_p[v.idle_p.len() - 1] < v.ps.len());
    }
}

/// Going into a system call and coming out of it change nothing else: of a thread
/// only which processors it holds and remembers and what it runs, of a processor
/// only its status, its thread and its count of calls.
pub proof fn system_calls_change_no_more(v: RtView, m: usize, g: Option<usize>, q: int)
    requires
        v.names(),
        m < v.ms.len(),
        opt_below(g, v.gs.len()),
        0 <= q < v.ps.len(),
    ensures
        ({
            let w = v.entered(Some(m));
            &&& w == (RtView { ps: w.ps, ms: w.ms, ..v })
            &&& w.ps.len() == v.ps.len() && w.ms.len() == v.ms.len()
        }),
        ({
            let w = v.came_out(Some(m), g);
            let x = w.ms[m as int];
            &&& w == (RtView {
                gs: w.gs,
                ps: w.ps,
                ms: w.ms,
                global: w.global,
                idle_p: w.idle_p,
                idle_m: w.idle_m,
                ..v
            })
            &&& x == (M { p: x.p, oldp: None, curg: x.curg, ..v.ms[m as int] })
            &&& w.ps[q] == (PView { status: w.ps[q].status, m: w.ps[q].m, ..v.ps[q] })
            &&& x.p != Some(q as usize) ==> w.ps[q] == v.ps[q]
            &&& v.exit_outcome(Some(m)) is Sleep ==> x.p == v.ms[m as int].p
        }),
        v.came_out(None, g) == v,
        v.exit_outcome(None) is Resumed,
{
    assert(m_names(v.ms[m as int], v.gs.len(), v.ps.len()));
    if v.idle_p.len() > 0 {
        assert(v.idle_p[v.idle_p.len() - 1] < v.ps.len());
    }
}

} // verus!
