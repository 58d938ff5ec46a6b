//! The life of a goroutine: it is made, queued, run, yields, is preempted, ends.

use vstd::prelude::*;

use super::g::{
    casgstatus, readgstatus, scan_flag_hides_nothing, Stack, G, GDEAD, GPREEMPTED, GRUNNABLE,
    GRUNNING, STACK_GUARD,
};
use super::m::{Tls, M};
use super::p::PView;
use super::sched::{all_below, opt_below, Rt, RtView};

verus! {

/// Processor families; they start a goroutine in different ways.
#[derive(Copy, Clone, Debug, PartialEq, Eq, Structural)]
pub enum Arch {
    /// The return address lies on the stack.
    X86_64,
    /// The return address lies in the link register.
    Aarch64,
}

/// Where goroutines begin and what they return to.
#[derive(Copy, Clone, Debug, PartialEq, Eq, Structural)]
pub struct Entry {
    /// Address of the code that runs a goroutine's closure.
    pub entry_pc: u64,
    /// Address of the code that ends a goroutine.
    pub exit_pc: u64,
    /// Processor family.
    pub arch: Arch,
}

/// A word that is to be written to a new goroutine's stack.
#[derive(Copy, Clone, Debug, PartialEq, Eq, Structural)]
pub struct StackWrite {
    pub addr: u64,
    pub value: u64,
}

/// A goroutine's saved context makes no sense; it must not be resumed.
#[derive(Copy, Clone, Debug, PartialEq, Eq, Structural)]
pub struct CorruptGobuf {
    pub gp: usize,
    pub goid: u64,
    pub status: u32,
    pub sp: u64,
    pub bp: u64,
    pub pc: u64,
    pub lo: u64,
    pub hi: u64,
}

/// What a thread does after it has asked the network poller.
#[derive(Copy, Clone, Debug, PartialEq, Eq, Structural)]
pub enum Next {
    /// It looks for work again.
    Search,
    /// It sleeps until it is woken; then it ends if threads are to end, and
    /// looks for work otherwise.
    Sleep,
    /// It ends.
    End,
}

/// A saved context can be resumed: the stack pointer lies on the stack and is
/// aligned, so does a frame pointer that is set, and there is code to run.
pub open spec fn resumable(g: G) -> bool {
    &&& g.stack.lo <= g.sched.sp <= g.stack.hi
    &&& g.sched.sp % 8 == 0
    &&& g.sched.bp == 0 || g.stack.lo <= g.sched.bp <= g.stack.hi
    &&& g.sched.pc != 0
}

/// The position of the first `x` in `s`, from `i` on; the length without one.
pub open spec fn first_at(s: Seq<usize>, x: usize, i: nat) -> nat
    decreases s.len() - i,
{
    if i >= s.len() {
        s.len()
    } else if s[i as int] == x {
        i
    } else {
        first_at(s, x, i + 1)
    }
}

/// `s` without its first `x`, whose place the last entry takes.
pub open spec fn swap_removed(s: Seq<usize>, x: usize) -> Seq<usize> {
    let i = first_at(s, x, 0);
    if i < s.len() {
        s.update(i as int, s.last()).drop_last()
    } else {
        s
    }
}

/// A stack on which a goroutine can be set up.
pub open spec fn usable(s: Stack) -> bool {
    &&& s.lo + STACK_GUARD <= u64::MAX
    &&& s.hi >= 8
}

/// A new goroutine with its context set to start its closure.
pub open spec fn prepared(gp: usize, stack: Stack, goid: u64, ctxt: usize, entry: Entry) -> G {
    let g = G::fresh(gp, stack, goid);
    G {
        sched: super::g::Gobuf {
            ctxt: Some(ctxt),
            pc: entry.entry_pc,
            sp: if entry.arch == Arch::X86_64 {
                (stack.hi - 8) as u64
            } else {
                stack.hi
            },
            lr: if entry.arch == Arch::X86_64 {
                0
            } else {
                entry.exit_pc
            },
            ..g.sched
        },
        atomicstatus: GRUNNABLE,
        ..g
    }
}

impl RtView {
    /// The state with goroutine `gp` running on thread `m`.
    pub open spec fn executed(self, m: int, gp: int) -> RtView {
        let v = self.with_m(m, M { curg: Some(gp as usize), ..self.ms[m] }).with_g(
            gp,
            G { m: Some(m as usize), atomicstatus: GRUNNING, ..self.gs[gp] },
        );
        match self.ms[m].p {
            None => v,
            Some(p) => v.with_p(
                p as int,
                PView {
                    schedtick: self.ps[p as int].schedtick.wrapping_add(1),
                    ..self.ps[p as int]
                },
            ),
        }
    }

    /// The state with goroutine `gp` taken off thread `m`, in another status.
    pub open spec fn detached(self, m: int, gp: int, status: u32) -> RtView {
        self.with_g(gp, G { m: None, atomicstatus: status, ..self.gs[gp] }).with_m(
            m,
            M { curg: None, ..self.ms[m] },
        )
    }

    /// The state after goroutine `gp` has given up thread `m` and waits behind
    /// all others.
    pub open spec fn yielded(self, m: int, gp: int) -> RtView {
        RtView { global: self.global.push(gp as usize), ..self.detached(m, gp, GRUNNABLE) }
    }

    /// The stack that goes back when the descriptor `gp` is put away.
    pub open spec fn shed_stack(self, gp: int) -> Option<Stack> {
        let s = self.gs[gp].stack;
        if self.gpool_off || s.hi - s.lo != self.stack_bytes {
            Some(s)
        } else {
            None
        }
    }

    /// The state after the descriptor `gp` was put away for later use.
    pub open spec fn put_away(self, gp: int) -> RtView {
        if self.gpool_off {
            self
        } else {
            let v = RtView { g_free: self.g_free.push(gp as usize), ..self };
            if self.shed_stack(gp) is Some {
                v.with_g(gp, G { stack: Stack { lo: 0, hi: 0 }, ..self.gs[gp] })
            } else {
                v
            }
        }
    }

    /// The state after goroutine `gp` has ended on thread `m`.
    pub open spec fn exited(self, m: int, gp: int) -> RtView {
        let v = self.detached(m, gp, GDEAD).with_m(
            m,
            M { curg: None, locks: (self.ms[m].locks - 1) as i32, ..self.ms[m] },
        );
        RtView { allg: swap_removed(self.allg, gp as usize), ..v }.put_away(gp)
    }

    /// A descriptor can be used again.
    pub open spec fn reuses(self) -> bool {
        !self.gpool_off && self.g_free.len() > 0
    }

    /// A new goroutine needs a stack from outside.
    pub open spec fn lacks_stack(self) -> bool {
        self.reuses() ==> self.gs[self.g_free.last() as int].stack.lo == 0
    }

    /// The descriptor that the next new goroutine gets.
    pub open spec fn next_g(self) -> usize {
        if self.reuses() {
            self.g_free.last()
        } else {
            self.gs.len() as usize
        }
    }

    /// The stack that the next new goroutine gets.
    pub open spec fn next_stack(self, fresh: Option<Stack>) -> Stack {
        if self.lacks_stack() {
            fresh->0
        } else {
            self.gs[self.g_free.last() as int].stack
        }
    }

    /// The state with a new goroutine, runnable but not yet queued.
    pub open spec fn with_new_g(self, ctxt: usize, entry: Entry, fresh: Option<Stack>) -> RtView {
        let gp = self.next_g();
        let g = prepared(gp, self.next_stack(fresh), self.next_goid, ctxt, entry);
        let v = RtView { next_goid: self.next_goid.wrapping_add(1), ..self };
        if self.reuses() {
            RtView { g_free: self.g_free.drop_last(), ..v.with_g(gp as int, g) }
        } else {
            RtView { gs: self.gs.push(g), ..v }
        }
    }

    /// The state with a new goroutine that waits on the global queue.
    pub open spec fn spawned(self, ctxt: usize, entry: Entry, fresh: Option<Stack>) -> RtView {
        let gp = self.next_g();
        let v = self.with_new_g(ctxt, entry, fresh);
        RtView { allg: v.allg.push(gp), global: v.global.push(gp), ..v }.started(None)
    }
}

impl Rt {
    /// Decides what thread `m` does after it has found nothing and the network
    /// poller's goroutines were made ready.
    pub fn after_poll(&mut self, m: usize) -> (next: Next)
        requires
            old(self).wf(),
            m < old(self)@.ms.len(),
        ensures
            final(self).wf(),
            final(self)@ == old(self)@.stopped(m as int),
            next == (if !old(self)@.may_go_on(m as int) {
                Next::Sleep
            } else if old(self)@.shutdown {
                Next::End
            } else {
                Next::Search
            }),
    {
        if !self.stopm(m) {
            Next::Sleep
        } else if self.shutdown {
            Next::End
        } else {
            Next::Search
        }
    }

    /// Lets thread `m` run goroutine `gp`.
    ///
    /// The context is checked first, where checks are on; one that makes no
    /// sense is reported and must not be resumed.
    pub fn execute(&mut self, tls: &mut Tls, m: usize, gp: usize) -> (r: Result<(), CorruptGobuf>)
        requires
            old(self).wf(),
            m < old(self)@.ms.len(),
            gp < old(self)@.gs.len(),
            old(self)@.gs[gp as int].atomicstatus == GRUNNABLE,
        ensures
            final(self).wf(),
            final(self)@ == old(self)@.executed(m as int, gp as int),
            r is Err <==> old(self)@.debug && !resumable(old(self)@.gs[gp as int]),
            r is Err ==> *final(tls) == *old(tls) && ({
                let g = old(self)@.gs[gp as int];
                r->Err_0 == (CorruptGobuf {
                    gp,
                    goid: g.goid,
                    status: GRUNNING,
                    sp: g.sched.sp,
                    bp: g.sched.bp,
                    pc: g.sched.pc,
                    lo: g.stack.lo,
                    hi: g.stack.hi,
                })
            }),
            r is Ok ==> *final(tls) == (Tls { g: Some(gp), ..*old(tls) }),
    {
        proof {
            scan_flag_hides_nothing(GRUNNABLE);
            scan_flag_hides_nothing(GRUNNING);
        }
        self.ms[m].curg = Some(gp);
        self.gs[gp].m = Some(m);
        casgstatus(&mut self.gs[gp], GRUNNABLE, GRUNNING);
        if let Some(p) = self.ms[m].p {
            self.ps[p].schedtick = self.ps[p].schedtick.wrapping_add(1);
        }
        proof {
            let w = old(self)@.executed(m as int, gp as int);
            assert(self@.ms =~= w.ms);
            assert(self@.gs =~= w.gs);
            assert(self@.ps =~= w.ps);
        }
        if self.debug {
            let g: G = self.gs[gp];
            let sp: u64 = g.sched.sp;
            let bp: u64 = g.sched.bp;
            let pc: u64 = g.sched.pc;
            let lo: u64 = g.stack.lo;
            let hi: u64 = g.stack.hi;
            assert(sp & 7 == sp % 8) by (bit_vector);
            let sp_ok: bool = sp >= lo && sp <= hi && sp & 7 == 0;
            let bp_ok: bool = bp == 0 || (bp >= lo && bp <= hi);
            if !sp_ok || !bp_ok || pc == 0 {
                return Err(
                    CorruptGobuf { gp, goid: g.goid, status: g.atomicstatus, sp, bp, pc, lo, hi },
                );
            }
        }
        tls.set_current_g(Some(gp));
        Ok(())
    }

    /// Takes a running goroutine off its thread.
    fn detach(&mut self, tls: &mut Tls, m: usize, gp: usize)
        requires
            old(self).wf(),
            m < old(self)@.ms.len(),
            gp < old(self)@.gs.len(),
        ensures
            final(self).wf(),
            final(self)@ == old(self)@.detached(
                m as int,
                gp as int,
                old(self)@.gs[gp as int].atomicstatus,
            ),
            *final(tls) == (Tls { g: None, ..*old(tls) }),
    {
        self.gs[gp].m = None;
        self.ms[m].curg = None;
        tls.set_current_g(None);
        proof {
            let w = old(self)@.detached(m as int, gp as int, old(self)@.gs[gp as int].atomicstatus);
            assert(self@.gs =~= w.gs);
            assert(self@.ps =~= w.ps);
        }
    }

    /// Lets goroutine `gp`, which runs on thread `m`, wait behind all others.
    pub fn gosched_m(&mut self, tls: &mut Tls, m: usize, gp: usize)
        requires
            old(self).wf(),
            m < old(self)@.ms.len(),
            gp < old(self)@.gs.len(),
            old(self)@.gs[gp as int].atomicstatus == GRUNNING,
        ensures
            final(self).wf(),
            final(self)@ == old(self)@.yielded(m as int, gp as int),
            *final(tls) == (Tls { g: None, ..*old(tls) }),
    {
        proof {
            scan_flag_hides_nothing(GRUNNABLE);
            scan_flag_hides_nothing(GRUNNING);
        }
        casgstatus(&mut self.gs[gp], GRUNNING, GRUNNABLE);
        assert(self@.ps =~= old(self)@.ps);
        self.detach(tls, m, gp);
        self.global_run_q.push_batch(&[gp]);
        proof {
            let w = old(self)@.yielded(m as int, gp as int);
            assert(self@.gs =~= w.gs);
            assert(self@.global =~= w.global);
        }
    }

    /// Stops goroutine `gp`, which was preempted on thread `m`; it waits behind
    /// all others.
    pub fn preemptm(&mut self, tls: &mut Tls, m: usize, gp: usize)
        requires
            old(self).wf(),
            m < old(self)@.ms.len(),
            gp < old(self)@.gs.len(),
            old(self)@.gs[gp as int].atomicstatus == GRUNNING,
        ensures
            final(self).wf(),
            final(self)@ == old(self)@.yielded(m as int, gp as int),
            *final(tls) == (Tls { g: None, ..*old(tls) }),
    {
        proof {
            scan_flag_hides_nothing(GRUNNABLE);
            scan_flag_hides_nothing(GRUNNING);
            scan_flag_hides_nothing(GPREEMPTED);
        }
        casgstatus(&mut self.gs[gp], GRUNNING, GPREEMPTED);
        casgstatus(&mut self.gs[gp], GPREEMPTED, GRUNNABLE);
        assert(self@.ps =~= old(self)@.ps);
        self.detach(tls, m, gp);
        self.global_run_q.push_batch(&[gp]);
        proof {
            let w = old(self)@.yielded(m as int, gp as int);
            assert(self@.gs =~= w.gs);
            assert(self@.global =~= w.global);
        }
    }

    /// Answers a preemption on the goroutine's own stack: clears the request.
    ///
    /// Gives back the goroutine that is now to be stopped; none where nothing
    /// runs, or what runs is not in a state to be stopped.
    pub fn async_preempt2(&mut self, tls: &Tls) -> (gp: Option<usize>)
        requires
            old(self).wf(),
            opt_below(tls.g, old(self)@.gs.len()),
            tls.g is Some ==> old(self)@.gs[tls.g->0 as int].stack.lo + STACK_GUARD <= u64::MAX,
        ensures
            final(self).wf(),
            gp == (if tls.g is Some && old(self)@.gs[tls.g->0 as int].status() == GRUNNING {
                tls.g
            } else {
                None
            }),
            final(self)@ == (match gp {
                None => old(self)@,
                Some(g) => old(self)@.with_g(
                    g as int,
                    G {
                        preempt: false,
                        stackguard0: (old(self)@.gs[g as int].stack.lo + STACK_GUARD) as u64,
                        ..old(self)@.gs[g as int]
                    },
                ),
            }),
    {
        let gp: usize = match tls.current_g() {
            None => {
                return None;
            },
            Some(g) => g,
        };
        if readgstatus(&self.gs[gp]) != GRUNNING {
            return None;
        }
        self.gs[gp].preempt = false;
        self.gs[gp].stackguard0 = self.gs[gp].stack.lo + STACK_GUARD;
        assert(self@.ps =~= old(self)@.ps);
        Some(gp)
    }

    /// Puts the descriptor of a goroutine that has ended away.  Gives back a
    /// stack that is to be freed: any of unusual size.
    pub fn gfree_put(&mut self, gp: usize) -> (stack: Option<Stack>)
        requires
            old(self).wf(),
            gp < old(self)@.gs.len(),
            old(self)@.gs[gp as int].stack.lo <= old(self)@.gs[gp as int].stack.hi,
        ensures
            final(self).wf(),
            stack == old(self)@.shed_stack(gp as int),
            final(self)@ == old(self)@.put_away(gp as int),
    {
        let stack: Stack = self.gs[gp].stack;
        if self.gpool_off {
            return Some(stack);
        }
        let mut shed: Option<Stack> = None;
        if stack.hi - stack.lo != self.stack_bytes {
            self.gs[gp].stack = Stack { lo: 0, hi: 0 };
            shed = Some(stack);
        }
        self.g_free.push(gp);
        assert(self@.ps =~= old(self)@.ps);
        shed
    }

    /// Takes a descriptor that was put away.
    pub fn gfree_get(&mut self) -> (gp: Option<usize>)
        requires
            old(self).wf(),
        ensures
            final(self).wf(),
            gp == (if old(self)@.reuses() {
                Some(old(self)@.g_free.last())
            } else {
                None
            }),
            final(self)@ == (if old(self)@.reuses() {
                RtView { g_free: old(self)@.g_free.drop_last(), ..old(self)@ }
            } else {
                old(self)@
            }),
    {
        if self.gpool_off {
            return None;
        }
        let gp = self.g_free.pop();
        assert(self@.ps =~= old(self)@.ps);
        gp
    }

    /// Ends goroutine `gp`, which ran on thread `m` with preemption locked once
    /// for its end.  Gives back a stack that is to be freed.
    pub fn goexit0(&mut self, tls: &mut Tls, m: usize, gp: usize) -> (stack: Option<Stack>)
        requires
            old(self).wf(),
            m < old(self)@.ms.len(),
            gp < old(self)@.gs.len(),
            old(self)@.gs[gp as int].atomicstatus == GRUNNING,
            old(self)@.gs[gp as int].stack.lo <= old(self)@.gs[gp as int].stack.hi,
            old(self)@.ms[m as int].locks > i32::MIN,
        ensures
            final(self).wf(),
            stack == old(self)@.shed_stack(gp as int),
            final(self)@ == old(self)@.exited(m as int, gp as int),
            *final(tls) == (Tls { g: None, ..*old(tls) }),
    {
        proof {
            scan_flag_hides_nothing(GDEAD);
            scan_flag_hides_nothing(GRUNNING);
        }
        casgstatus(&mut self.gs[gp], GRUNNING, GDEAD);
        assert(self@.ps =~= old(self)@.ps);
        self.detach(tls, m, gp);
        self.ms[m].unlock();
        let mut i: usize = 0;
        while i < self.allg.len() && self.allg[i] != gp
            invariant
                i <= self.allg@.len(),
                first_at(self.allg@, gp, 0) == first_at(self.allg@, gp, i as nat),
            decreases self.allg@.len() - i,
        {
            i = i + 1;
        }
        if i < self.allg.len() {
            self.allg.swap_remove(i);
        }
        proof {
            let w = old(self)@.exited(m as int, gp as int);
            assert(self@.ps =~= old(self)@.ps);
            assert(self@.allg == swap_removed(old(self)@.allg, gp));
            assert(all_below(self@.allg, self@.gs.len()));
            assert(self@.gs =~= old(self)@.detached(m as int, gp as int, GDEAD).gs);
            assert(self@.ms =~= w.ms);
            assert(self.wf());
        }
        self.gfree_put(gp)
    }

    /// Ends goroutine `gp`, which runs on thread `m`.
    pub fn goexit(&mut self, tls: &mut Tls, m: usize, gp: usize) -> (stack: Option<Stack>)
        requires
            old(self).wf(),
            m < old(self)@.ms.len(),
            gp < old(self)@.gs.len(),
            old(self)@.gs[gp as int].atomicstatus == GRUNNING,
            old(self)@.gs[gp as int].stack.lo <= old(self)@.gs[gp as int].stack.hi,
            old(self)@.ms[m as int].locks < i32::MAX,
        ensures
            final(self).wf(),
            stack == old(self)@.shed_stack(gp as int),
            final(self)@ == old(self)@.with_m(
                m as int,
                M { locks: (old(self)@.ms[m as int].locks + 1) as i32, ..old(self)@.ms[m as int] },
            ).exited(m as int, gp as int),
            final(self)@.ms[m as int].locks == old(self)@.ms[m as int].locks,
            *final(tls) == (Tls { g: None, ..*old(tls) }),
    {
        self.ms[m].lock();
        assert(self@.ps =~= old(self)@.ps);
        self.goexit0(tls, m, gp)
    }

    /// Does the next new goroutine need a stack from outside?
    pub fn needs_stack(&self) -> (b: bool)
        requires
            self.wf(),
        ensures
            b == self@.lacks_stack(),
    {
        if self.gpool_off || self.g_free.len() == 0 {
            true
        } else {
            self.gs[self.g_free[self.g_free.len() - 1]].stack.lo == 0
        }
    }

    /// Makes a goroutine that will run closure `ctxt`.  A descriptor that was
    /// put away is used again, with its stack if it has one.
    ///
    /// Gives back the goroutine, and the word to write to its stack, if any.
    pub fn new_goroutine(&mut self, ctxt: usize, entry: Entry, fresh: Option<Stack>) -> (r: (
        usize,
        Option<StackWrite>,
    ))
        requires
            old(self).wf(),
            old(self)@.lacks_stack() ==> fresh is Some,
            usable(old(self)@.next_stack(fresh)),
        ensures
            final(self).wf(),
            r.0 == old(self)@.next_g(),
            r.0 < final(self)@.gs.len(),
            r.1 == (if entry.arch == Arch::X86_64 {
                Some(
                    StackWrite {
                        addr: (old(self)@.next_stack(fresh).hi - 8) as u64,
                        value: entry.exit_pc,
                    },
                )
            } else {
                None
            }),
            final(self)@ == old(self)@.with_new_g(ctxt, entry, fresh),
    {
        let goid: u64 = self.next_goid;
        self.next_goid = goid.wrapping_add(1);
        assert(self@.ps =~= old(self)@.ps);
        let gp: usize = match self.gfree_get() {
            Some(gp) => {
                let mut stack: Stack = self.gs[gp].stack;
                if stack.lo == 0 {
                    if let Some(s) = fresh {
                        stack = s;
                    }
                }
                self.gs[gp] = G::new(gp, stack, goid);
                gp
            },
            None => {
                let gp: usize = self.gs.len();
                if let Some(stack) = fresh {
                    self.gs.push(G::new(gp, stack, goid));
                }
                gp
            },
        };
        self.gs[gp].sched.ctxt = Some(ctxt);
        self.gs[gp].sched.pc = entry.entry_pc;
        let hi: u64 = self.gs[gp].stack.hi;
        let write: Option<StackWrite> = match entry.arch {
            Arch::X86_64 => {
                self.gs[gp].sched.sp = hi - 8;
                self.gs[gp].sched.bp = 0;
                Some(StackWrite { addr: hi - 8, value: entry.exit_pc })
            },
            Arch::Aarch64 => {
                self.gs[gp].sched.lr = entry.exit_pc;
                self.gs[gp].sched.sp = hi;
                self.gs[gp].sched.bp = 0;
                None
            },
        };
        self.gs[gp].atomicstatus = GRUNNABLE;
        proof {
            let w = old(self)@.with_new_g(ctxt, entry, fresh);
            assert(self@.gs =~= w.gs);
            assert(self@.ps =~= old(self)@.ps);
        }
        (gp, write)
    }

    /// Starts a goroutine that will run closure `ctxt`: it waits on the global
    /// queue, and an idle thread is brought to work.
    pub fn spawn_goroutine(&mut self, ctxt: usize, entry: Entry, fresh: Option<Stack>) -> (r: (
        usize,
        Option<StackWrite>,
    ))
        requires
            old(self).wf(),
            old(self)@.lacks_stack() ==> fresh is Some,
            usable(old(self)@.next_stack(fresh)),
        ensures
            final(self).wf(),
            r.0 == old(self)@.next_g(),
            r.1 == (if entry.arch == Arch::X86_64 {
                Some(
                    StackWrite {
                        addr: (old(self)@.next_stack(fresh).hi - 8) as u64,
                        value: entry.exit_pc,
                    },
                )
            } else {
                None
            }),
            final(self)@ == old(self)@.spawned(ctxt, entry, fresh),
    {
        let (gp, write) = self.new_goroutine(ctxt, entry, fresh);
        let ghost v = self@;
        self.allg.push(gp);
        self.global_run_q.push_batch(&[gp]);
        proof {
            assert(self@.ps =~= v.ps);
            assert(self@.global =~= v.global.push(gp));
        }
        self.startm(None);
        (gp, write)
    }
}

/// A goroutine that a thread runs is running there, and the thread knows it; its
/// processor has counted one more.  Nothing else has changed: no other goroutine,
/// thread or processor, and no queue.
pub proof fn a_goroutine_runs_on_its_thread(v: RtView, m: int, gp: int)
    requires
        v.names(),
        0 <= m < v.ms.len(),
        0 <= gp < v.gs.len(),
    ensures
        ({
            let w = v.executed(m, gp);
            &&& w.gs[gp].atomicstatus == 2 && w.gs[gp].m == Some(m as usize)
            &&& w.gs[gp].sched == v.gs[gp].sched && w.gs[gp].stack == v.gs[gp].stack
            &&& w.gs[gp].goid == v.gs[gp].goid && w.gs[gp].param == v.gs[gp].param
            &&& w.ms[m].curg == Some(gp as usize) && w.ms[m].p == v.ms[m].p
            &&& w.ms[m].locks == v.ms[m].locks
            &&& v.ms[m].p matches Some(p) ==> w.ps[p as int] == (PView {
                schedtick: v.ps[p as int].schedtick.wrapping_add(1),
                ..v.ps[p as int]
            })
            &&& forall|g: int| 0 <= g < v.gs.len() && g != gp ==> #[trigger] w.gs[g] == v.gs[g]
            &&& forall|t: int| 0 <= t < v.ms.len() && t != m ==> #[trigger] w.ms[t] == v.ms[t]
            &&& forall|p: int|
                0 <= p < v.ps.len() && v.ms[m].p != Some(p as usize) ==> #[trigger] w.ps[p]
                    == v.ps[p]
            &&& w.global == v.global && w.idle_m == v.idle_m && w.idle_p == v.idle_p && w.allg
                == v.allg && w.g_free == v.g_free
        }),
{
    assert(super::sched::m_names(v.ms[m], v.gs.len(), v.ps.len()));
}

/// A goroutine that yields, or is preempted, is runnable and waits behind all
/// others on the global queue, with everything it had; its thread is free for
/// another.
pub proof fn a_yielding_goroutine_goes_to_the_back(v: RtView, m: int, gp: int)
    requires
        0 <= m < v.ms.len(),
        0 <= gp < v.gs.len(),
    ensures
        ({
            let w = v.yielded(m, gp);
            &&& w.global == v.global.push(gp as usize)
            &&& w.gs[gp] == (G { m: None, atomicstatus: GRUNNABLE, ..v.gs[gp] })
            &&& w.ms[m] == (M { curg: None, ..v.ms[m] })
            &&& forall|g: int| 0 <= g < v.gs.len() && g != gp ==> #[trigger] w.gs[g] == v.gs[g]
            &&& forall|t: int| 0 <= t < v.ms.len() && t != m ==> #[trigger] w.ms[t] == v.ms[t]
            &&& w.ps == v.ps && w.idle_m == v.idle_m && w.idle_p == v.idle_p && w.allg == v.allg
        }),
{
}

/// The position found is that of the first occurrence.
proof fn lemma_first_at(s: Seq<usize>, x: usize, i: nat)
    requires
        i <= s.len(),
    ensures
        i <= first_at(s, x, i) <= s.len(),
        first_at(s, x, i) < s.len() ==> s[first_at(s, x, i) as int] == x,
        forall|j: int| i <= j < first_at(s, x, i) ==> s[j] != x,
    decreases s.len() - i,
{
    if i < s.len() && s[i as int] != x {
        lemma_first_at(s, x, i + 1);
    }
}

/// A goroutine that has ended is dead, is no longer among the living, and holds no
/// thread; all others live on.  Its descriptor can be used again, unless that is
/// switched off, and a stack of unusual size is given back.
pub proof fn an_ended_goroutine_is_gone(v: RtView, m: int, gp: int, x: usize)
    requires
        0 <= m < v.ms.len(),
        0 <= gp < v.gs.len(),
        gp <= usize::MAX,
        v.ms[m].locks > i32::MIN,
        v.allg.no_duplicates(),
    ensures
        ({
            let w = v.exited(m, gp);
            let s = v.gs[gp].stack;
            &&& w.gs[gp].atomicstatus == GDEAD && w.gs[gp].m is None
            &&& w.ms[m].curg is None && w.ms[m].locks == v.ms[m].locks - 1 && w.ms[m].p == v.ms[m].p
            &&& w.allg.contains(x) <==> v.allg.contains(x) && x != gp
            &&& !v.gpool_off ==> w.g_free == v.g_free.push(gp as usize)
            &&& v.gpool_off ==> w.g_free == v.g_free
            &&& v.shed_stack(gp) is Some <==> v.gpool_off || s.hi - s.lo != v.stack_bytes
            &&& v.shed_stack(gp) is Some ==> v.shed_stack(gp)->0 == s
            &&& v.shed_stack(gp) is None ==> w.gs[gp].stack == s
            &&& v.shed_stack(gp) is Some && !v.gpool_off ==> w.gs[gp].stack.lo == 0
            &&& forall|g: int| 0 <= g < v.gs.len() && g != gp ==> #[trigger] w.gs[g] == v.gs[g]
            &&& forall|t: int| 0 <= t < v.ms.len() && t != m ==> #[trigger] w.ms[t] == v.ms[t]
            &&& w.ps == v.ps && w.global == v.global && w.idle_m == v.idle_m && w.idle_p
                == v.idle_p && w.next_goid == v.next_goid
        }),
{
    let w = v.exited(m, gp);
    let y = gp as usize;
    lemma_first_at(v.allg, y, 0);
    let i = first_at(v.allg, y, 0) as int;
    let r = swap_removed(v.allg, y);
    assert(w.allg == r);
    if v.allg.contains(x) && x != y {
        let j = v.allg.index_of(x);
        if i < v.allg.len() && j == v.allg.len() - 1 {
            assert(r[i] == x);
        } else {
            assert(r[j] == x);
        }
    }
    if r.contains(x) {
        let j = r.index_of(x);
        if i < v.allg.len() && j == i {
            assert(v.allg[v.allg.len() - 1] == x);
        } else {
            assert(v.allg[j] == x);
        }
        if x == y {
            if i < v.allg.len() {
                if j == i {
                    assert(v.allg[v.allg.len() - 1] == v.allg[i]);
                } else {
                    assert(v.allg[j] == v.allg[i]);
                }
            }
        }
    }
}

/// A new goroutine begins at the given code with its closure, on a stack that is
/// all free, and returns to the code that ends it: that address is in the link
/// register, or in the word at the top of the stack.  It is runnable, nobody runs
/// it, and nothing is left of who had the descriptor before.
pub proof fn a_new_goroutine_starts_afresh(
    gp: usize,
    stack: Stack,
    goid: u64,
    ctxt: usize,
    entry: Entry,
)
    requires
        usable(stack),
        stack.lo + 8 <= stack.hi,
        stack.hi % 8 == 0,
        entry.entry_pc != 0,
    ensures
        ({
            let g = prepared(gp, stack, goid, ctxt, entry);
            &&& g.atomicstatus == 1 && g.m is None && g.goid == goid && g.stack == stack
            &&& g.sched.pc == entry.entry_pc && g.sched.ctxt == Some(ctxt) && g.sched.g == Some(gp)
            &&& entry.arch == Arch::X86_64 ==> g.sched.sp == stack.hi - 8
            &&& entry.arch == Arch::Aarch64 ==> g.sched.sp == stack.hi && g.sched.lr
                == entry.exit_pc
            &&& entry.arch == Arch::X86_64 ==> g.sched.lr == 0
            &&& g.sched.bp == 0 && g.sched.ret == 0 && g.waitreason == super::g::WaitReason::Zero
            &&& g.stackguard0 == stack.lo + 928
            &&& g.selectdone == 0 && g.param is None && !g.preempt && g.park_unlock is None
                && g.waiting_wg is None
            &&& resumable(g)
        }),
{
}

/// Starting a goroutine queues it, lists it, and gives it a number that was not
/// given before; it gets a descriptor that was put away, with its stack, where
/// there is one.  No other goroutine is touched.
pub proof fn a_started_goroutine_is_queued(
    v: RtView,
    ctxt: usize,
    entry: Entry,
    fresh: Option<Stack>,
)
    requires
        v.names(),
        v.gs.len() < usize::MAX,
    ensures
        ({
            let w = v.spawned(ctxt, entry, fresh);
            let gp = v.next_g();
            let again = !v.gpool_off && v.g_free.len() > 0;
            &&& w.global == v.global.push(gp)
            &&& w.allg == v.allg.push(gp)
            &&& again ==> gp == v.g_free.last() && w.g_free == v.g_free.drop_last() && w.gs.len()
                == v.gs.len()
            &&& !again ==> gp == v.gs.len() && w.g_free == v.g_free && w.gs.len() == v.gs.len() + 1
            &&& w.gs[gp as int].goid == v.next_goid
            &&& w.next_goid == v.next_goid.wrapping_add(1)
            &&& w.gs[gp as int].atomicstatus == GRUNNABLE
            &&& w.gs[gp as int].sched.ctxt == Some(ctxt)
            &&& w.gs[gp as int].sched.pc == entry.entry_pc
            &&& w.gs[gp as int] == prepared(gp, w.gs[gp as int].stack, v.next_goid, ctxt, entry)
            &&& w.gs[gp as int].stack == (if again && v.gs[gp as int].stack.lo != 0 {
                v.gs[gp as int].stack
            } else {
                fresh->0
            })
            &&& v.lacks_stack() <==> !(again && v.gs[gp as int].stack.lo != 0)
            &&& forall|g: int| 0 <= g < v.gs.len() && g != gp ==> #[trigger] w.gs[g] == v.gs[g]
        }),
{
    if v.reuses() {
        assert(v.g_free[v.g_free.len() - 1] < v.gs.len());
    }
}

/// What was put away last is used again first, with its stack if that has the
/// usual size: ending a goroutine and starting another needs no new memory.
pub proof fn an_ended_goroutine_makes_room(v: RtView, m: int, gp: int)
    requires
        0 <= m < v.ms.len(),
        0 <= gp < v.gs.len(),
        gp <= usize::MAX,
        !v.gpool_off,
        v.gs[gp].stack.hi - v.gs[gp].stack.lo == v.stack_bytes,
        v.gs[gp].stack.lo != 0,
    ensures
        v.exited(m, gp).next_g() == gp,
        !v.exited(m, gp).lacks_stack(),
        v.exited(m, gp).next_stack(None) == v.gs[gp].stack,
{
}

/// A context that cannot be resumed is told apart: the stack pointer must lie on
/// the stack, on a word, and so must a frame pointer; and there must be code.
pub proof fn only_sound_contexts_are_resumed(g: G)
    requires
        resumable(g),
    ensures
        g.stack.lo <= g.sched.sp,
        g.sched.sp <= g.stack.hi,
        g.sched.sp % 8 == 0,
        g.sched.pc != 0,
        g.sched.bp != 0 ==> g.stack.lo <= g.sched.bp <= g.stack.hi,
{
}

/// And no sound one is refused.
pub proof fn every_sound_context_is_resumed(g: G)
    requires
        g.stack.lo <= g.sched.sp <= g.stack.hi,
        g.sched.sp % 8 == 0,
        g.sched.pc != 0,
        g.sched.bp == 0 || g.stack.lo <= g.sched.bp <= g.stack.hi,
    ensures
        resumable(g),
{
}

/// Running a goroutine changes nothing but its status and its thread, what the
/// thread runs, and the count of its processor.
pub proof fn running_changes_no_more(v: RtView, m: int, gp: int)
    requires
        v.names(),
        0 <= m < v.ms.len(),
        0 <= gp < v.gs.len(),
    ensures
        ({
            let w = v.executed(m, gp);
            &&& w == (RtView { gs: w.gs, ms: w.ms, ps: w.ps, ..v })
            &&& w.gs[gp] == (G { atomicstatus: 2, m: Some(m as usize), ..v.gs[gp] })
            &&& w.ms[m] == (M { curg: Some(gp as usize), ..v.ms[m] })
            &&& v.ms[m].p is None ==> w.ps == v.ps
        }),
{
}

/// Yielding changes nothing but the goroutine, its thread and the global queue.
pub proof fn yielding_changes_no_more(v: RtView, m: int, gp: int)
    requires
        0 <= m < v.ms.len(),
        0 <= gp < v.gs.len(),
    ensures
        ({
            let w = v.yielded(m, gp);
            w == (RtView { gs: w.gs, ms: w.ms, global: w.global, ..v })
        }),
{
}

/// Ending a goroutine changes nothing but its status, its stack if that is given
/// back, what its thread runs and how many locks that counts, and the lists of
/// goroutines.
pub proof fn ending_changes_no_more(v: RtView, m: int, gp: int)
    requires
        0 <= m < v.ms.len(),
        0 <= gp < v.gs.len(),
    ensures
        ({
            let w = v.exited(m, gp);
            let s = v.gs[gp].stack;
            &&& w == (RtView { gs: w.gs, ms: w.ms, allg: w.allg, g_free: w.g_free, ..v })
            &&& w.gs[gp] == (G {
                atomicstatus: 6,
                m: None,
                stack: if !v.gpool_off && s.hi - s.lo != v.stack_bytes {
                    Stack { lo: 0, hi: 0 }
                } else {
                    s
                },
                ..v.gs[gp]
            })
            &&& w.ms[m] == (M { curg: None, locks: w.ms[m].locks, ..v.ms[m] })
            &&& v.allg.contains(gp as usize) ==> w.allg.len() == v.allg.len() - 1
            &&& !v.allg.contains(gp as usize) ==> w.allg == v.allg
        }),
{
    lemma_first_at(v.allg, gp as usize, 0);
    let i = first_at(v.allg, gp as usize, 0) as int;
    if v.allg.contains(gp as usize) {
        let j = v.allg.index_of(gp as usize);
        assert(v.allg[j] == gp as usize);
        assert(i <= j);
    } else if i < v.allg.len() {
        assert(v.allg[i] == gp as usize);
    }
}

/// Starting a goroutine touches no other goroutine's place: what waits on the
/// processors stays, and of threads and processors only who holds whom changes.
pub proof fn spawning_changes_no_more(
    v: RtView,
    ctxt: usize,
    entry: Entry,
    fresh: Option<Stack>,
    q: int,
    t: int,
)
    requires
        v.names(),
        v.gs.len() < usize::MAX,
        0 <= q < v.ps.len(),
        0 <= t < v.ms.len(),
    ensures
        ({
            let w = v.spawned(ctxt, entry, fresh);
            &&& w == (RtView {
                gs: w.gs,
                ps: w.ps,
                ms: w.ms,
                global: w.global,
                idle_p: w.idle_p,
                idle_m: w.idle_m,
                allg: w.allg,
                g_free: w.g_free,
                next_goid: w.next_goid,
                ..v
            })
            &&& w.ps[q] == (PView { status: w.ps[q].status, m: w.ps[q].m, ..v.ps[q] })
            &&& w.ms[t] == (M { p: w.ms[t].p, park: w.ms[t].park, ..v.ms[t] })
        }),
{
    let a = v.with_new_g(ctxt, entry, fresh);
    let b = RtView { allg: a.allg.push(v.next_g()), global: a.global.push(v.next_g()), ..a };
    super::sched::lemma_last_wanted(b, b.idle_p.len());
    if v.idle_m.len() > 0 {
        assert(v.idle_m[v.idle_m.len() - 1] < v.ms.len());
    }
    if b.spare() is Some {
        assert(v.idle_p[b.spare()->0] < v.ps.len());
    }
}

/// A new goroutine does not wait while a thread sleeps that could have a processor:
/// the thread is woken with one that is wanted.
pub proof fn spawning_brings_a_thread_to_work(
    v: RtView,
    ctxt: usize,
    entry: Entry,
    fresh: Option<Stack>,
    i: int,
)
    requires
        v.names(),
        v.gs.len() < usize::MAX,
        0 <= i < v.idle_p.len(),
        v.ps[v.idle_p[i] as int].id < v.gomaxprocs,
        forall|j: int|
            i < j < v.idle_p.len() ==> v.ps[(#[trigger] v.idle_p[j]) as int].id >= v.gomaxprocs,
        v.idle_m.len() > 0,
    ensures
        ({
            let w = v.spawned(ctxt, entry, fresh);
            let t = v.idle_m[v.idle_m.len() - 1];
            &&& w.idle_m == v.idle_m.take(v.idle_m.len() - 1)
            &&& w.idle_p == v.idle_p.take(i) + v.idle_p.skip(i + 1)
            &&& w.ms[t as int].p == Some(v.idle_p[i]) && w.ms[t as int].park.flag
            &&& w.ps[v.idle_p[i] as int].status == 1 && w.ps[v.idle_p[i] as int].m == Some(t)
        }),
{
    super::sched::an_idle_processor_is_brought_to_work(v, i);
    let a = v.with_new_g(ctxt, entry, fresh);
    let b = RtView { allg: a.allg.push(v.next_g()), global: a.global.push(v.next_g()), ..a };
    super::sched::lemma_same_spare(v, b, v.idle_p.len());
    let w = v.spawned(ctxt, entry, fresh);
    assert(w.ps == v.started(None).ps);
    assert(w.ms == v.started(None).ms);
    assert(w.idle_p == v.started(None).idle_p);
}

/// A goroutine that leaves its thread has none, in the status that it is given; the
/// thread runs nothing; nobody else notices.
pub proof fn leaving_a_thread_changes_no_more(v: RtView, m: int, gp: int, status: u32)
    requires
        0 <= m < v.ms.len(),
        0 <= gp < v.gs.len(),
    ensures
        ({
            let w = v.detached(m, gp, status);
            &&& w.gs[gp] == (G { m: None, atomicstatus: status, ..v.gs[gp] })
            &&& w.ms[m] == (M { curg: None, ..v.ms[m] })
            &&& w == (RtView { gs: w.gs, ms: w.ms, ..v })
            &&& forall|g: int| 0 <= g < v.gs.len() && g != gp ==> #[trigger] w.gs[g] == v.gs[g]
            &&& forall|t: int| 0 <= t < v.ms.len() && t != m ==> #[trigger] w.ms[t] == v.ms[t]
        }),
{
}

/// A descriptor that is put away is the next to be used again, unless that is
/// switched off; it keeps a stack of the usual size and no other.
pub proof fn putting_away_changes_no_more(v: RtView, gp: int)
    requires
        0 <= gp < v.gs.len(),
    ensures
        ({
            let w = v.put_away(gp);
            let s = v.gs[gp].stack;
            &&& v.gpool_off ==> w == v
            &&& !v.gpool_off ==> w.g_free == v.g_free.push(gp as usize)
            &&& !v.gpool_off && s.hi - s.lo == v.stack_bytes ==> w.gs == v.gs
            &&& !v.gpool_off && s.hi - s.lo != v.stack_bytes ==> w.gs[gp] == (G {
                stack: Stack { lo: 0, hi: 0 },
                ..v.gs[gp]
            })
            &&& w == (RtView { gs: w.gs, g_free: w.g_free, ..v })
            &&& forall|g: int| 0 <= g < v.gs.len() && g != gp ==> #[trigger] w.gs[g] == v.gs[g]
        }),
{
}

} // verus!
