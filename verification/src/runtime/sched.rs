//! The scheduler's state, and how threads find work, wait for it and hand it on.

use vstd::prelude::*;

use super::g::G;
use super::m::M;
use super::p::{GlobalRunQueue, P, PView, PIDLE, PRUNNING};

verus! {

/// Every this many goroutines a processor looks at the global queue first.
pub const GLOBAL_QUEUE_PERIOD: u32 = 61;

/// Spreads the threads over the victims at which they begin to steal.
pub const STEAL_START_FACTOR: usize = 0x9e37_79b9;

/// Rounds over all victims before a thread gives up stealing.
pub const STEAL_ROUNDS: usize = 4;

/// The whole state of a scheduler.
pub struct Rt {
    /// All goroutine descriptors.
    pub gs: Vec<G>,
    /// All threads.
    pub ms: Vec<M>,
    /// All processors.
    pub ps: Vec<P>,
    /// The queue that all processors share.
    pub global_run_q: GlobalRunQueue,
    /// Processors that nobody runs; the next to use is last.
    pub idle_p: Vec<usize>,
    /// Threads that sleep for want of work; the next to wake is last.
    pub idle_m: Vec<usize>,
    /// Goroutines that have started and not ended.
    pub allg: Vec<usize>,
    /// Descriptors to use again; the next is last.
    pub g_free: Vec<usize>,
    /// Threads that look for work.
    pub nmspinning: i32,
    /// How many processors are wanted.
    pub gomaxprocs: i32,
    /// Threads are to end.
    pub shutdown: bool,
    /// Descriptors are not used again.
    pub gpool_off: bool,
    /// Contexts are checked before they are resumed.
    pub debug: bool,
    /// Number of the next goroutine.
    pub next_goid: u64,
    /// Number of the next thread.
    pub next_mid: i64,
    /// Size of a new goroutine's stack.
    pub stack_bytes: u64,
}

/// What a scheduler holds.
#[verifier::ext_equal]
pub struct RtView {
    pub gs: Seq<G>,
    pub ms: Seq<M>,
    pub ps: Seq<PView>,
    pub global: Seq<usize>,
    pub idle_p: Seq<usize>,
    pub idle_m: Seq<usize>,
    pub allg: Seq<usize>,
    pub g_free: Seq<usize>,
    pub nmspinning: i32,
    pub gomaxprocs: i32,
    pub shutdown: bool,
    pub gpool_off: bool,
    pub debug: bool,
    pub next_goid: u64,
    pub next_mid: i64,
    pub stack_bytes: u64,
}

impl View for Rt {
    type V = RtView;

    open spec fn view(&self) -> RtView {
        RtView {
            gs: self.gs@,
            ms: self.ms@,
            ps: Seq::new(self.ps@.len(), |i: int| self.ps@[i]@),
            global: self.global_run_q@,
            idle_p: self.idle_p@,
            idle_m: self.idle_m@,
            allg: self.allg@,
            g_free: self.g_free@,
            nmspinning: self.nmspinning,
            gomaxprocs: self.gomaxprocs,
            shutdown: self.shutdown,
            gpool_off: self.gpool_off,
            debug: self.debug,
            next_goid: self.next_goid,
            next_mid: self.next_mid,
            stack_bytes: self.stack_bytes,
        }
    }
}

/// Every entry names one of `n` objects.
pub open spec fn all_below(s: Seq<usize>, n: nat) -> bool {
    forall|i: int| 0 <= i < s.len() ==> (#[trigger] s[i]) < n
}

/// The name, if any, is one of `n` objects.
pub open spec fn opt_below(o: Option<usize>, n: nat) -> bool {
    o is Some ==> o->0 < n
}

/// What a processor names exists.
pub open spec fn p_names(p: PView, ng: nat, nm: nat) -> bool {
    &&& all_below(p.ring, ng)
    &&& opt_below(p.runnext, ng)
    &&& opt_below(p.m, nm)
    &&& p.ring.len() <= 256
}

/// What a thread names exists.
pub open spec fn m_names(m: M, ng: nat, np: nat) -> bool {
    &&& m.g0 < ng
    &&& opt_below(m.curg, ng)
    &&& opt_below(m.p, np)
    &&& opt_below(m.oldp, np)
}

impl RtView {
    /// Everything that is named exists.
    pub open spec fn names(self) -> bool {
        &&& forall|i: int|
            0 <= i < self.ps.len() ==> p_names(#[trigger] self.ps[i], self.gs.len(), self.ms.len())
        &&& forall|i: int|
            0 <= i < self.ms.len() ==> m_names(#[trigger] self.ms[i], self.gs.len(), self.ps.len())
        &&& all_below(self.global, self.gs.len())
        &&& all_below(self.idle_p, self.ps.len())
        &&& all_below(self.idle_m, self.ms.len())
        &&& all_below(self.allg, self.gs.len())
        &&& all_below(self.g_free, self.gs.len())
        &&& self.ps.len() <= i32::MAX
        &&& self.gomaxprocs >= 1
        &&& self.nmspinning >= 0
    }

    /// The state with another processor at `p`.
    pub open spec fn with_p(self, p: int, x: PView) -> RtView {
        RtView { ps: self.ps.update(p, x), ..self }
    }

    /// The state with another thread at `m`.
    pub open spec fn with_m(self, m: int, x: M) -> RtView {
        RtView { ms: self.ms.update(m, x), ..self }
    }

    /// The state with another goroutine at `g`.
    pub open spec fn with_g(self, g: int, x: G) -> RtView {
        RtView { gs: self.gs.update(g, x), ..self }
    }

    /// Thread `m` holds processor `p` and runs it.
    pub open spec fn attached(self, m: int, p: int) -> RtView {
        self.with_p(p, PView { status: PRUNNING, m: Some(m as usize), ..self.ps[p] }).with_m(
            m,
            M { p: Some(p as usize), ..self.ms[m] },
        )
    }

    /// Processor `p` waits on the idle list.
    pub open spec fn idled(self, p: int) -> RtView {
        RtView {
            idle_p: self.idle_p.push(p as usize),
            ..self.with_p(p, PView { status: PIDLE, m: None, ..self.ps[p] })
        }
    }

    /// Processor `p` is one of those that are wanted.  The others exist, but no
    /// thread is brought to work with them.
    pub open spec fn wanted(self, p: int) -> bool {
        self.ps[p].id < self.gomaxprocs
    }

    /// The position of the last among the first `n` idle processors that is
    /// wanted.
    pub open spec fn last_wanted(self, n: nat) -> Option<int>
        decreases n,
    {
        if n == 0 {
            None
        } else if self.wanted(self.idle_p[n - 1] as int) {
            Some(n - 1)
        } else {
            self.last_wanted((n - 1) as nat)
        }
    }

    /// The position of the idle processor that is next to be used.
    pub open spec fn spare(self) -> Option<int> {
        self.last_wanted(self.idle_p.len())
    }

    /// The state after a try to bring processor `p`, or an idle one that is
    /// wanted, to work: a sleeping thread gets it and is woken.  Without such a
    /// thread a given processor goes idle; without a processor nothing happens.
    pub open spec fn started(self, p: Option<usize>) -> RtView {
        if self.idle_m.len() == 0 {
            match p {
                Some(p) => self.idled(p as int),
                None => self,
            }
        } else if p is Some || self.spare() is Some {
            let m = self.idle_m.last() as int;
            let q = if p is Some {
                p->0 as int
            } else {
                self.idle_p[self.spare()->0] as int
            };
            let v = RtView {
                idle_m: self.idle_m.drop_last(),
                idle_p: if p is Some {
                    self.idle_p
                } else {
                    self.idle_p.remove(self.spare()->0)
                },
                ..self
            };
            let w = v.attached(m, q);
            w.with_m(m, M { park: super::m::Note { flag: true }, ..w.ms[m] })
        } else {
            self
        }
    }

    /// Some processor has goroutines waiting on it.
    pub open spec fn local_work(self) -> bool {
        exists|i: int| 0 <= i < self.ps.len() && (#[trigger] self.ps[i]).size() > 0
    }

    /// A thread that has found nothing may go on after all.
    pub open spec fn may_go_on(self, m: int) -> bool {
        let own = self.ms[m].p;
        ||| own is Some && self.ps[own->0 as int].size() > 0
        ||| self.shutdown
        ||| self.global.len() > 0
        ||| self.local_work() && (own is Some || self.idle_p.len() > 0)
    }

    /// The state after thread `m`, which has found nothing, has looked once
    /// more.  If it goes on, it has its processor or else an idle one; if not,
    /// its processor and itself are idle.
    pub open spec fn stopped(self, m: int) -> RtView {
        let own = self.ms[m].p;
        if own is Some && self.ps[own->0 as int].size() > 0 || self.shutdown {
            self
        } else if self.may_go_on(m) {
            if own is Some {
                self.attached(m, own->0 as int)
            } else if self.idle_p.len() > 0 {
                RtView { idle_p: self.idle_p.drop_last(), ..self.attached(
                    m,
                    self.idle_p.last() as int,
                ) }
            } else {
                self
            }
        } else {
            let v = if own is Some {
                self.idled(own->0 as int).with_m(m, M { p: None, ..self.ms[m] })
            } else {
                self
            };
            RtView { idle_m: v.idle_m.push(m as usize), ..v }
        }
    }

    /// Where thread `m` begins to look for a victim.
    pub open spec fn steal_start(self, m: int) -> int {
        (self.ms[m].id as usize).wrapping_mul(STEAL_START_FACTOR) as int % self.ps.len() as int
    }

    /// The processor that is `i` further on from `start`.
    pub open spec fn victim(self, start: int, i: int) -> int {
        (start + i) % self.ps.len() as int
    }

    /// The first of the processors, from the `i`-th after `start` on, that is
    /// not `me` and has something to take; their number where none has.
    pub open spec fn next_victim(self, me: int, start: int, i: nat, steal_run_next: bool) -> nat
        decreases self.ps.len() - i,
    {
        if i >= self.ps.len() {
            self.ps.len()
        } else if self.victim(start, i as int) != me && self.ps[self.victim(start, i as int)].loot(
            steal_run_next,
        ).len() > 0 {
            i
        } else {
            self.next_victim(me, start, i + 1, steal_run_next)
        }
    }

    /// The state after `me` has stolen from `victim`.
    pub open spec fn robbery(self, me: int, victim: int, steal_run_next: bool) -> RtView {
        let loot = self.ps[victim].loot(steal_run_next);
        self.with_p(victim, self.ps[victim].robbed(steal_run_next)).with_p(
            me,
            self.ps[me].enriched(loot),
        )
    }

    /// What thread `m` steals: from the first processor with a ring that is not
    /// empty; only where there is none, the `runnext` of the first that has one.
    pub open spec fn stolen(self, m: int) -> (Option<usize>, RtView) {
        let own = self.ms[m].p;
        if self.ps.len() > 1 && own is Some {
            let me = own->0 as int;
            let start = self.steal_start(m);
            let a = self.next_victim(me, start, 0, false);
            let b = self.next_victim(me, start, 0, true);
            if a < self.ps.len() {
                let victim = self.victim(start, a as int);
                (PView::prize(self.ps[victim].loot(false)), self.robbery(me, victim, false))
            } else if b < self.ps.len() {
                let victim = self.victim(start, b as int);
                (PView::prize(self.ps[victim].loot(true)), self.robbery(me, victim, true))
            } else {
                (None, self)
            }
        } else {
            (None, self)
        }
    }

    /// What thread `m` takes from its own processor.
    pub open spec fn taken_local(self, m: int) -> (Option<usize>, RtView) {
        match self.ms[m].p {
            None => (None, self),
            Some(p) => (self.ps[p as int].peek(), self.with_p(p as int, self.ps[p as int].got())),
        }
    }

    /// What is taken from the global queue.
    pub open spec fn taken_global(self) -> (Option<usize>, RtView) {
        if self.global.len() > 0 {
            (Some(self.global[0]), RtView { global: self.global.skip(1), ..self })
        } else {
            (None, self)
        }
    }

    /// What thread `m` finds to run: on its own processor, else on the global
    /// queue, else on another processor.
    pub open spec fn found(self, m: int) -> (Option<usize>, RtView) {
        if self.taken_local(m).0 is Some {
            self.taken_local(m)
        } else if self.global.len() > 0 {
            self.taken_global()
        } else {
            self.stolen(m)
        }
    }

    /// What thread `m` runs next.  Now and then the global queue comes first,
    /// so that it does not starve.
    pub open spec fn picked(self, m: int) -> (Option<usize>, RtView) {
        let p = self.ms[m].p->0 as int;
        if self.ps[p].schedtick % GLOBAL_QUEUE_PERIOD == 0 && self.global.len() > 0 {
            self.taken_global()
        } else {
            self.found(m)
        }
    }
}

impl Rt {
    /// Every ring is in order and everything that is named exists.
    pub open spec fn wf(self) -> bool {
        &&& forall|i: int| 0 <= i < self.ps@.len() ==> (#[trigger] self.ps@[i]).wf()
        &&& self@.names()
    }

    /// Finds the idle processor that is next to be used.
    fn find_spare(&self) -> (at: Option<usize>)
        requires
            self.wf(),
        ensures
            at is Some <==> self@.spare() is Some,
            at is Some ==> at->0 == self@.spare()->0 && at->0 < self@.idle_p.len(),
    {
        let mut n: usize = self.idle_p.len();
        while n > 0
            invariant
                self.wf(),
                n <= self@.idle_p.len(),
                self@.spare() == self@.last_wanted(n as nat),
            decreases n,
        {
            let p: usize = self.idle_p[n - 1];
            assert(self@.idle_p[n - 1] < self@.ps.len());
            assert(self@.ps[p as int] == self.ps@[p as int]@);
            if self.ps[p].id < self.gomaxprocs {
                return Some(n - 1);
            }
            n = n - 1;
        }
        None
    }

    /// Wakes a sleeping thread with processor `p`, or with an idle one that is
    /// wanted.
    pub fn startm(&mut self, p: Option<usize>)
        requires
            old(self).wf(),
            opt_below(p, old(self)@.ps.len()),
        ensures
            final(self).wf(),
            final(self)@ == old(self)@.started(p),
    {
        if self.idle_m.len() == 0 {
            if let Some(p) = p {
                self.ps[p].status = PIDLE;
                self.ps[p].m = None;
                self.idle_p.push(p);
                assert(self@.ps =~= old(self)@.idled(p as int).ps);
            }
            return ;
        }
        let use_p: usize = match p {
            Some(p) => p,
            None => match self.find_spare() {
                Some(at) => {
                    assert(self@.idle_p[at as int] < self@.ps.len());
                    self.idle_p.remove(at)
                },
                None => {
                    return ;
                },
            },
        };
        assert(old(self)@.idle_m.len() > 0);
        assert(all_below(self@.idle_p, self@.ps.len())) by {
            assert forall|i: int| 0 <= i < self@.idle_p.len() implies (#[trigger] self@.idle_p[i])
                < self@.ps.len() by {
                assert(self@.idle_p[i] == old(self)@.idle_p[i] || self@.idle_p[i] == old(self)@.idle_p[i + 1]);
            }
        }
        let last: usize = self.idle_m.len() - 1;
        let m: usize = self.idle_m[last];
        self.idle_m.pop();
        self.ps[use_p].status = PRUNNING;
        self.ps[use_p].m = Some(m);
        self.ms[m].p = Some(use_p);
        self.ms[m].unpark();
        assert(self@.ps =~= old(self)@.started(p).ps);
        assert(self@.ms =~= old(self)@.started(p).ms);
    }

    /// A thread that has found no work gives up its processor and goes idle,
    /// unless work has come meanwhile or threads are to end.
    ///
    /// Gives back whether the thread goes on; if not, it is to sleep until it
    /// is woken.
    pub fn stopm(&mut self, m: usize) -> (go_on: bool)
        requires
            old(self).wf(),
            m < old(self)@.ms.len(),
        ensures
            final(self).wf(),
            go_on == old(self)@.may_go_on(m as int),
            final(self)@ == old(self)@.stopped(m as int),
    {
        let own = self.ms[m].p;
        if let Some(p) = own {
            if self.ps[p].runq_size() > 0 {
                return true;
            }
        }
        if self.shutdown {
            return true;
        }
        if let Some(p) = own {
            self.ms[m].p = None;
            self.ps[p].status = PIDLE;
            self.ps[p].m = None;
            self.idle_p.push(p);
        }
        self.idle_m.push(m);
        let global_work: bool = self.global_run_q.len() > 0;
        let local_work: bool = self.any_local_work();
        proof {
            if local_work {
                let i = choose|i: int| 0 <= i < self@.ps.len() && (#[trigger] self@.ps[i]).size() > 0;
                assert(old(self)@.ps[i].size() > 0);
            } else if old(self)@.local_work() {
                let i = choose|i: int|
                    0 <= i < old(self)@.ps.len() && (#[trigger] old(self)@.ps[i]).size() > 0;
                assert(self@.ps[i].size() > 0);
            }
        }
        if global_work || local_work {
            let p2 = self.idle_p.pop();
            if p2.is_some() || global_work {
                self.idle_m.pop();
                if let Some(p) = p2 {
                    self.ps[p].status = PRUNNING;
                    self.ps[p].m = Some(m);
                    self.ms[m].p = Some(p);
                }
                proof {
                    let w = old(self)@.stopped(m as int);
                    assert(self@.ps =~= w.ps);
                    assert(self@.ms =~= w.ms);
                    assert(self@.idle_p =~= w.idle_p);
                    assert(self@.idle_m =~= w.idle_m);
                }
                return true;
            }
        }
        proof {
            let w = old(self)@.stopped(m as int);
            assert(self@.ps =~= w.ps);
            assert(self@.ms =~= w.ms);
        }
        false
    }

    /// Does some processor have goroutines waiting on it?
    fn any_local_work(&self) -> (b: bool)
        requires
            forall|i: int| 0 <= i < self.ps@.len() ==> (#[trigger] self.ps@[i]).wf(),
        ensures
            b == self@.local_work(),
    {
        let mut i: usize = 0;
        while i < self.ps.len()
            invariant
                forall|i: int| 0 <= i < self.ps@.len() ==> (#[trigger] self.ps@[i]).wf(),
                i <= self.ps@.len(),
                forall|j: int| 0 <= j < i ==> (#[trigger] self@.ps[j]).size() == 0,
            decreases self.ps@.len() - i,
        {
            if self.ps[i].runq_size() > 0 {
                assert(self@.ps[i as int].size() > 0);
                return true;
            }
            i = i + 1;
        }
        false
    }

    /// Takes a goroutine from the processor that thread `m` holds.
    fn take_local(&mut self, m: usize) -> (gp: Option<usize>)
        requires
            old(self).wf(),
            m < old(self)@.ms.len(),
        ensures
            final(self).wf(),
            (gp, final(self)@) == old(self)@.taken_local(m as int),
            gp is Some ==> gp->0 < final(self)@.gs.len(),
    {
        match self.ms[m].p {
            None => None,
            Some(p) => {
                assert(p_names(self@.ps[p as int], self@.gs.len(), self@.ms.len()));
                let (gp, _inherit) = self.ps[p].runqget();
                assert(self@.ps =~= old(self)@.ps.update(p as int, old(self)@.ps[p as int].got()));
                gp
            },
        }
    }

    /// Steals from the other processors.
    fn steal_work(&mut self, m: usize) -> (gp: Option<usize>)
        requires
            old(self).wf(),
            m < old(self)@.ms.len(),
            old(self)@.ms[m as int].p matches Some(p) ==> old(self)@.ps[p as int].ring.len() == 0,
        ensures
            final(self).wf(),
            (gp, final(self)@) == old(self)@.stolen(m as int),
            gp is Some ==> gp->0 < final(self)@.gs.len(),
    {
        let np: usize = self.ps.len();
        let p: usize = match self.ms[m].p {
            None => {
                return None;
            },
            Some(p) => p,
        };
        if np <= 1 {
            return None;
        }
        let start: usize = (self.ms[m].id as usize).wrapping_mul(STEAL_START_FACTOR) % np;
        let ghost v0 = self@;
        let mut pass: usize = 0;
        while pass < STEAL_ROUNDS
            invariant
                self.wf(),
                self@ == v0,
                v0 == old(self)@,
                m < v0.ms.len(),
                v0.ms[m as int].p == Some(p),
                np == v0.ps.len(),
                np > 1,
                start == v0.steal_start(m as int),
                v0.ps[p as int].ring.len() == 0,
                pass <= STEAL_ROUNDS,
                pass > 0 ==> v0.next_victim(p as int, start as int, 0, false) == np,
                pass == STEAL_ROUNDS ==> v0.next_victim(p as int, start as int, 0, true) == np,
            decreases STEAL_ROUNDS - pass,
        {
            let steal_run_next: bool = pass == 3;
            let mut i: usize = 0;
            while i < np
                invariant
                    self.wf(),
                    self@ == v0,
                    v0 == old(self)@,
                    m < v0.ms.len(),
                    v0.ms[m as int].p == Some(p),
                    np == v0.ps.len(),
                    np > 1,
                    start == v0.steal_start(m as int),
                    v0.ps[p as int].ring.len() == 0,
                    pass < STEAL_ROUNDS,
                    steal_run_next == (pass == 3),
                    pass > 0 ==> v0.next_victim(p as int, start as int, 0, false) == np,
                    i <= np,
                    v0.next_victim(p as int, start as int, 0, steal_run_next) == v0.next_victim(
                        p as int,
                        start as int,
                        i as nat,
                        steal_run_next,
                    ),
                decreases np - i,
            {
                let victim: usize = (start + i) % np;
                if victim != p {
                    assert(self@.ps[victim as int] == self.ps@[victim as int]@);
                    let batch = self.ps[victim].runqgrab(steal_run_next);
                    if batch.len() > 0 {
                        proof {
                            let x = v0.ps[victim as int];
                            assert(p_names(x, v0.gs.len(), v0.ms.len()));
                            assert(self@.ps =~= v0.ps.update(
                                victim as int,
                                x.robbed(steal_run_next),
                            ));
                            assert(all_below(batch@, v0.gs.len()));
                            assert(self@.ps[p as int] == v0.ps[p as int]);
                        }
                        let gp = self.ps[p].runqaccept(&batch);
                        proof {
                            let me = v0.ps[p as int];
                            assert(p_names(me, v0.gs.len(), v0.ms.len()));
                            assert(all_below(
                                me.enriched(batch@).ring,
                                v0.gs.len(),
                            ));
                            let w = v0.robbery(p as int, victim as int, steal_run_next);
                            assert(self@.ps =~= w.ps);
                            assert(self@ =~= w);
                        }
                        return gp;
                    }
                    proof {
                        let x = v0.ps[victim as int];
                        assert(x.robbed(steal_run_next) =~= x);
                        assert(self@.ps =~= v0.ps);
                    }
                }
                i = i + 1;
            }
            pass = pass + 1;
        }
        None
    }

    /// Looks once for a goroutine that thread `m` can run.
    ///
    /// Where there is none, the thread asks the network poller, makes ready what
    /// that gives, and calls `after_poll`.
    pub fn findrunnable(&mut self, m: usize) -> (gp: Option<usize>)
        requires
            old(self).wf(),
            m < old(self)@.ms.len(),
        ensures
            final(self).wf(),
            (gp, final(self)@) == old(self)@.found(m as int),
            gp is Some ==> gp->0 < final(self)@.gs.len(),
    {
        let gp = self.take_local(m);
        if gp.is_some() {
            return gp;
        }
        proof {
            if old(self)@.ms[m as int].p is Some {
                let p = old(self)@.ms[m as int].p->0 as int;
                assert(old(self)@.ps.update(p, old(self)@.ps[p].got()) =~= old(self)@.ps);
            }
            assert(self@ =~= old(self)@);
        }
        let gp = self.global_run_q.pop();
        if gp.is_some() {
            assert(gp->0 == old(self)@.global[0]);
            return gp;
        }
        self.steal_work(m)
    }

    /// Chooses the goroutine that thread `m`, which holds a processor, runs next.
    /// Where there is none, the thread goes on as after `findrunnable`.
    pub fn schedule(&mut self, m: usize) -> (gp: Option<usize>)
        requires
            old(self).wf(),
            m < old(self)@.ms.len(),
            old(self)@.ms[m as int].p is Some,
        ensures
            final(self).wf(),
            (gp, final(self)@) == old(self)@.picked(m as int),
            gp is Some ==> gp->0 < final(self)@.gs.len(),
    {
        let tick: u32 = match self.ms[m].p {
            Some(p) => self.ps[p].schedtick,
            None => 0,
        };
        if tick % GLOBAL_QUEUE_PERIOD == 0 && self.global_run_q.len() > 0 {
            let gp = self.global_run_q.pop();
            assert(gp->0 == old(self)@.global[0]);
            return gp;
        }
        self.findrunnable(m)
    }
}

/// Another goroutine at a place keeps every name valid.
pub proof fn with_g_keeps_names(v: RtView, g: int, x: G)
    requires
        v.names(),
        0 <= g < v.gs.len(),
    ensures
        v.with_g(g, x).names(),
{
    let w = v.with_g(g, x);
    assert(w.gs.len() == v.gs.len());
    assert forall|i: int| 0 <= i < w.ps.len() implies p_names(
        #[trigger] w.ps[i],
        w.gs.len(),
        w.ms.len(),
    ) by {
        assert(p_names(v.ps[i], v.gs.len(), v.ms.len()));
    }
    assert forall|i: int| 0 <= i < w.ms.len() implies m_names(
        #[trigger] w.ms[i],
        w.gs.len(),
        w.ps.len(),
    ) by {
        assert(m_names(v.ms[i], v.gs.len(), v.ps.len()));
    }
}

/// The idle processor that is next to be used is the last of those that are
/// wanted.
pub proof fn lemma_last_wanted(v: RtView, n: nat)
    ensures
        v.last_wanted(n) matches Some(i) ==> 0 <= i < n && v.wanted(v.idle_p[i] as int) && (
        forall|j: int| i < j < n ==> !v.wanted((#[trigger] v.idle_p[j]) as int)),
        v.last_wanted(n) is None ==> forall|j: int|
            0 <= j < n ==> !v.wanted((#[trigger] v.idle_p[j]) as int),
    decreases n,
{
    if n > 0 && !v.wanted(v.idle_p[n - 1] as int) {
        lemma_last_wanted(v, (n - 1) as nat);
    }
}

/// Which idle processor is next depends on their numbers alone.
pub proof fn lemma_same_spare(v: RtView, w: RtView, n: nat)
    requires
        all_below(v.idle_p, v.ps.len()),
        v.idle_p == w.idle_p,
        v.gomaxprocs == w.gomaxprocs,
        v.ps.len() == w.ps.len(),
        forall|i: int| 0 <= i < v.ps.len() ==> (#[trigger] v.ps[i]).id == w.ps[i].id,
        n <= v.idle_p.len(),
    ensures
        v.last_wanted(n) == w.last_wanted(n),
    decreases n,
{
    if n > 0 {
        assert(v.idle_p[n - 1] < v.ps.len());
        assert(v.ps[v.idle_p[n - 1] as int].id == w.ps[v.idle_p[n - 1] as int].id);
        lemma_same_spare(v, w, (n - 1) as nat);
    }
}

/// Bringing a thread to work keeps every name valid.
pub proof fn lemma_started_names(v: RtView, p: Option<usize>)
    requires
        v.names(),
        opt_below(p, v.ps.len()),
    ensures
        v.started(p).names(),
{
    let w = v.started(p);
    lemma_last_wanted(v, v.idle_p.len());
    assert(w.ps.len() == v.ps.len() && w.ms.len() == v.ms.len());
    assert(all_below(w.idle_p, w.ps.len())) by {
        assert forall|i: int| 0 <= i < w.idle_p.len() implies (#[trigger] w.idle_p[i])
            < w.ps.len() by {
            if i < v.idle_p.len() && w.idle_p[i] == v.idle_p[i] {
            } else if w.idle_p.len() < v.idle_p.len() {
                assert(w.idle_p[i] == v.idle_p[i + 1]);
            }
        }
    }
    assert forall|i: int| 0 <= i < w.ps.len() implies p_names(
        #[trigger] w.ps[i],
        w.gs.len(),
        w.ms.len(),
    ) by {
        assert(p_names(v.ps[i], v.gs.len(), v.ms.len()));
    }
    assert forall|i: int| 0 <= i < w.ms.len() implies m_names(
        #[trigger] w.ms[i],
        w.gs.len(),
        w.ps.len(),
    ) by {
        assert(m_names(v.ms[i], v.gs.len(), v.ps.len()));
    }
}

/// A given processor goes to the thread that went to sleep last, which is woken
/// and holds it; where no thread sleeps, the processor is idle.  No goroutine, no
/// queue and no other processor is touched.
pub proof fn a_given_processor_finds_a_thread(v: RtView, p: usize)
    requires
        v.names(),
        p < v.ps.len(),
    ensures
        ({
            let w = v.started(Some(p));
            &&& v.idle_m.len() == 0 ==> w.idle_p == v.idle_p.push(p) && w.ps[p as int].status
                == PIDLE && w.ps[p as int].m is None && w.ms == v.ms && w.idle_m == v.idle_m
            &&& v.idle_m.len() > 0 ==> ({
                let m = v.idle_m[v.idle_m.len() - 1];
                &&& w.idle_m == v.idle_m.drop_last() && w.idle_p == v.idle_p
                &&& w.ms[m as int].p == Some(p) && w.ms[m as int].park.flag
                &&& w.ms[m as int].curg == v.ms[m as int].curg && w.ms[m as int].blocked
                    == v.ms[m as int].blocked
                &&& w.ps[p as int].status == PRUNNING && w.ps[p as int].m == Some(m)
                &&& forall|t: int| 0 <= t < v.ms.len() && t != m ==> #[trigger] w.ms[t] == v.ms[t]
            })
            &&& w.ps[p as int].ring == v.ps[p as int].ring && w.ps[p as int].runnext
                == v.ps[p as int].runnext
            &&& w.gs == v.gs && w.global == v.global && w.gomaxprocs == v.gomaxprocs
            &&& forall|q: int| 0 <= q < v.ps.len() && q != p ==> #[trigger] w.ps[q] == v.ps[q]
        }),
{
    if v.idle_m.len() > 0 {
        assert(v.idle_m[v.idle_m.len() - 1] < v.ms.len());
    }
}

/// A thread that has found nothing sleeps, and lets go of its processor, exactly
/// when there is nothing to be found: nothing on its own processor, on the global
/// queue, or, if it has or could have a processor, on any other, and no end of the
/// threads.  Both are then on the idle lists.
pub proof fn a_thread_sleeps_only_on_nothing(v: RtView, m: int)
    requires
        v.names(),
        0 <= m < v.ms.len(),
    ensures
        ({
            let w = v.stopped(m);
            let own = v.ms[m].p;
            let stays = v.may_go_on(m);
            &&& v.shutdown || v.global.len() > 0 ==> stays
            &&& own is Some && v.ps[own->0 as int].size() > 0 ==> stays
            &&& (own is Some || v.idle_p.len() > 0) && (exists|p: int|
                0 <= p < v.ps.len() && (#[trigger] v.ps[p]).size() > 0) ==> stays
            &&& !v.shutdown && v.global.len() == 0 && (forall|p: int|
                0 <= p < v.ps.len() ==> (#[trigger] v.ps[p]).size() == 0) ==> !stays
            &&& !stays ==> w.idle_m == v.idle_m.push(m as usize) && w.ms[m].p is None
            &&& !stays && own is Some ==> w.idle_p == v.idle_p.push(own->0)
                && w.ps[own->0 as int].status == PIDLE && w.ps[own->0 as int].m is None
            &&& !stays && own is None ==> w.idle_p == v.idle_p && w.ps == v.ps
            &&& stays ==> w.idle_m == v.idle_m
            &&& stays && own is Some ==> w.ms[m].p == own && w.idle_p == v.idle_p
            &&& stays && own is None && v.idle_p.len() > 0 && !v.shutdown ==> w.ms[m].p == Some(
                v.idle_p[v.idle_p.len() - 1],
            ) && w.idle_p == v.idle_p.drop_last() && w.ps[v.idle_p[v.idle_p.len()
                - 1] as int].status == PRUNNING && w.ps[v.idle_p[v.idle_p.len() - 1] as int].m
                == Some(m as usize)
            &&& w.gs == v.gs && w.global == v.global
            &&& forall|t: int| 0 <= t < v.ms.len() && t != m ==> #[trigger] w.ms[t] == v.ms[t]
        }),
{
    assert(m_names(v.ms[m], v.gs.len(), v.ps.len()));
    if v.idle_p.len() > 0 {
        assert(v.idle_p[v.idle_p.len() - 1] < v.ps.len());
    }
}

/// Where a thread looks for work: first what was put before all others on its own
/// processor, then what has waited longest there, then what has waited longest on
/// the global queue, and only then on other processors.  Every sixty-first time
/// the global queue comes first.
pub proof fn work_is_found_in_this_order(v: RtView, m: int)
    requires
        v.names(),
        0 <= m < v.ms.len(),
        v.ms[m].p is Some,
    ensures
        ({
            let p = v.ms[m].p->0 as int;
            let x = v.ps[p];
            let r = v.picked(m);
            let turn = x.schedtick % 61 == 0 && v.global.len() > 0;
            &&& turn ==> r.0 == Some(v.global[0]) && r.1.global == v.global.skip(1) && r.1.ps
                == v.ps
            &&& !turn && x.runnext is Some ==> r.0 == x.runnext && r.1.ps[p].runnext is None
                && r.1.ps[p].ring == x.ring && r.1.global == v.global
            &&& !turn && x.runnext is None && x.ring.len() > 0 ==> r.0 == Some(x.ring[0])
                && r.1.ps[p].ring == x.ring.skip(1) && r.1.global == v.global
            &&& x.size() == 0 && v.global.len() > 0 ==> r.0 == Some(v.global[0]) && r.1.global
                == v.global.skip(1) && r.1.ps == v.ps
            &&& r.1.gs == v.gs && r.1.ms == v.ms && r.1.idle_m == v.idle_m && r.1.idle_p
                == v.idle_p
        }),
{
    assert(m_names(v.ms[m], v.gs.len(), v.ps.len()));
}

proof fn lemma_next_victim(v: RtView, me: int, start: int, i: nat, steal_run_next: bool)
    requires
        v.ps.len() > 0,
        i <= v.ps.len(),
    ensures
        ({
            let n = v.next_victim(me, start, i, steal_run_next);
            &&& i <= n <= v.ps.len()
            &&& n < v.ps.len() ==> v.victim(start, n as int) != me && v.ps[v.victim(
                start,
                n as int,
            )].loot(steal_run_next).len() > 0
            &&& forall|j: int|
                i <= j < n ==> #[trigger] v.victim(start, j) == me || v.ps[v.victim(
                    start,
                    j,
                )].loot(steal_run_next).len() == 0
        }),
    decreases v.ps.len() - i,
{
    if i < v.ps.len() && !(v.victim(start, i as int) != me && v.ps[v.victim(start, i as int)].loot(
        steal_run_next,
    ).len() > 0) {
        lemma_next_victim(v, me, start, i + 1, steal_run_next);
    }
}

/// A thread that steals gets something exactly when another processor has
/// something; and it takes what was to run next on another processor only where no
/// other has anything on its ring.
pub proof fn a_thief_finds_what_there_is(v: RtView, m: int, q: int)
    requires
        v.names(),
        0 <= m < v.ms.len(),
        v.ms[m].p is Some,
        0 <= q < v.ps.len(),
        q != v.ms[m].p->0,
    ensures
        v.ps[q].size() > 0 ==> v.stolen(m).0 is Some,
        v.ps[q].ring.len() > 0 ==> forall|p: int|
            0 <= p < v.ps.len() ==> (#[trigger] v.stolen(m).1.ps[p]).runnext == v.ps[p].runnext,
        v.stolen(m).1.global == v.global,
        v.stolen(m).1.gs == v.gs,
        v.stolen(m).1.ms == v.ms,
{
    assert(m_names(v.ms[m], v.gs.len(), v.ps.len()));
    let me = v.ms[m].p->0 as int;
    let start = v.steal_start(m);
    let n = v.ps.len() as int;
    assert(0 <= start < n) by (nonlinear_arith)
        requires
            n > 0,
            start == (v.ms[m].id as usize).wrapping_mul(STEAL_START_FACTOR) as int % n,
    ;
    lemma_next_victim(v, me, start, 0, false);
    lemma_next_victim(v, me, start, 0, true);
    let i = if q >= start {
        q - start
    } else {
        q - start + n
    };
    assert(v.victim(start, i) == q) by {
        if q >= start {
            assert(start + i == q);
            vstd::arithmetic::div_mod::lemma_small_mod(q as nat, n as nat);
        } else {
            assert(start + i == q + n);
            vstd::arithmetic::div_mod::lemma_mod_add_multiples_vanish(q, n);
            vstd::arithmetic::div_mod::lemma_small_mod(q as nat, n as nat);
        }
    }
    let a = v.next_victim(me, start, 0, false);
    let b = v.next_victim(me, start, 0, true);
    if v.ps[q].ring.len() > 0 {
        assert(v.ps[q].loot(false).len() > 0);
        assert(a < n);
    } else if v.ps[q].size() > 0 {
        assert(v.ps[q].loot(true).len() > 0);
        assert(b < n);
    }
    if a < n {
        let x = v.victim(start, a as int);
        assert(0 <= x < n) by {
            vstd::arithmetic::div_mod::lemma_mod_bound(start + a, n);
        }
        assert(v.stolen(m).1 == v.robbery(me, x, false));
    }
}

/// Bringing a processor to work touches no goroutine and no queue.  Of a thread it
/// changes only the processor and the wake-up, of a processor only the status and
/// the thread.
pub proof fn starting_changes_no_more(v: RtView, p: Option<usize>, q: int, t: int)
    requires
        v.names(),
        opt_below(p, v.ps.len()),
        0 <= q < v.ps.len(),
        0 <= t < v.ms.len(),
    ensures
        ({
            let w = v.started(p);
            &&& w == (RtView {
                ps: w.ps,
                ms: w.ms,
                idle_p: w.idle_p,
                idle_m: w.idle_m,
                ..v
            })
            &&& w.ps.len() == v.ps.len() && w.ms.len() == v.ms.len()
            &&& w.ps[q] == (PView { status: w.ps[q].status, m: w.ps[q].m, ..v.ps[q] })
            &&& w.ms[t] == (M { p: w.ms[t].p, park: w.ms[t].park, ..v.ms[t] })
        }),
{
    lemma_last_wanted(v, v.idle_p.len());
    if v.idle_m.len() > 0 {
        assert(v.idle_m[v.idle_m.len() - 1] < v.ms.len());
    }
    if v.spare() is Some {
        assert(v.idle_p[v.spare()->0] < v.ps.len());
    }
}

/// Where a thread sleeps and an idle processor is wanted, the thread that went to
/// sleep last is woken and holds the wanted one that went idle last; both leave
/// the idle lists, on which the others keep their order.  Otherwise nothing
/// happens.
pub proof fn an_idle_processor_is_brought_to_work(v: RtView, i: int)
    requires
        v.names(),
        0 <= i < v.idle_p.len(),
        v.ps[v.idle_p[i] as int].id < v.gomaxprocs,
        forall|j: int|
            i < j < v.idle_p.len() ==> v.ps[(#[trigger] v.idle_p[j]) as int].id >= v.gomaxprocs,
    ensures
        ({
            let w = v.started(None);
            let p = v.idle_p[i];
            let m = v.idle_m[v.idle_m.len() - 1];
            &&& v.idle_m.len() == 0 ==> w == v
            &&& v.idle_m.len() > 0 ==> {
                &&& w.idle_m == v.idle_m.take(v.idle_m.len() - 1)
                &&& w.idle_p == v.idle_p.take(i) + v.idle_p.skip(i + 1)
                &&& w.ms[m as int] == (M {
                    p: Some(p),
                    park: super::m::Note { flag: true },
                    ..v.ms[m as int]
                })
                &&& w.ps[p as int] == (PView { status: 1, m: Some(m), ..v.ps[p as int] })
                &&& forall|t: int| 0 <= t < v.ms.len() && t != m ==> #[trigger] w.ms[t] == v.ms[t]
                &&& forall|q: int| 0 <= q < v.ps.len() && q != p ==> #[trigger] w.ps[q] == v.ps[q]
            }
        }),
{
    lemma_last_wanted(v, v.idle_p.len());
    lemma_spare_is_last(v, v.idle_p.len(), i);
    if v.idle_m.len() > 0 {
        assert(v.idle_m[v.idle_m.len() - 1] < v.ms.len());
        assert(v.started(None).idle_p =~= v.idle_p.take(i) + v.idle_p.skip(i + 1));
    }
}

proof fn lemma_spare_is_last(v: RtView, n: nat, i: int)
    requires
        0 <= i < n <= v.idle_p.len(),
        v.ps[v.idle_p[i] as int].id < v.gomaxprocs,
        forall|j: int|
            i < j < n ==> v.ps[(#[trigger] v.idle_p[j]) as int].id >= v.gomaxprocs,
    ensures
        v.last_wanted(n) == Some(i),
    decreases n,
{
    if n - 1 > i {
        assert(v.ps[v.idle_p[n - 1] as int].id >= v.gomaxprocs);
        lemma_spare_is_last(v, (n - 1) as nat, i);
    }
}

/// A thread that has found nothing goes on for no other reason than these: work on
/// its own processor, on the global queue, or, if it has or can have a processor,
/// anywhere; or the end of the threads.  Looking once more touches no goroutine and
/// no queue, and of threads and processors only who holds whom.
pub proof fn stopping_changes_no_more(v: RtView, m: int, q: int, t: int)
    requires
        v.names(),
        0 <= m < v.ms.len(),
        0 <= q < v.ps.len(),
        0 <= t < v.ms.len(),
    ensures
        ({
            let w = v.stopped(m);
            let own = v.ms[m].p;
            &&& v.may_go_on(m) <==> {
                ||| v.shutdown
                ||| v.global.len() > 0
                ||| (own is Some || v.idle_p.len() > 0) && exists|p: int|
                    0 <= p < v.ps.len() && (#[trigger] v.ps[p]).size() > 0
            }
            &&& v.shutdown ==> w == v
            &&& own is None && v.idle_p.len() == 0 && v.may_go_on(m) ==> w == v
            &&& w == (RtView {
                ps: w.ps,
                ms: w.ms,
                idle_p: w.idle_p,
                idle_m: w.idle_m,
                ..v
            })
            &&& w.ps[q] == (PView { status: w.ps[q].status, m: w.ps[q].m, ..v.ps[q] })
            &&& w.ms[t] == (M { p: w.ms[t].p, ..v.ms[t] })
            &&& own != Some(q as usize) && !v.idle_p.contains(q as usize) ==> w.ps[q] == v.ps[q]
        }),
{
    assert(m_names(v.ms[m], v.gs.len(), v.ps.len()));
    if v.idle_p.len() > 0 {
        assert(v.idle_p[v.idle_p.len() - 1] < v.ps.len());
        assert(v.idle_p.contains(v.idle_p[v.idle_p.len() - 1]));
    }
    if v.ms[m].p is Some && v.ps[v.ms[m].p->0 as int].size() > 0 {
        assert(v.ps[v.ms[m].p->0 as int].size() > 0);
    }
}

/// Looking for work touches no goroutine and no thread, and of processors only
/// what waits on them.
pub proof fn finding_changes_no_more(v: RtView, m: int, q: int)
    requires
        v.names(),
        0 <= m < v.ms.len(),
        v.ms[m].p is Some,
        0 <= q < v.ps.len(),
    ensures
        ({
            let w = v.picked(m).1;
            &&& w == (RtView { ps: w.ps, global: w.global, ..v })
            &&& w.ps.len() == v.ps.len()
            &&& w.ps[q] == (PView { ring: w.ps[q].ring, runnext: w.ps[q].runnext, ..v.ps[q] })
            &&& v.picked(m).0 is None ==> w.global == v.global && w.ps[q] == v.ps[q]
        }),
{
    assert(m_names(v.ms[m], v.gs.len(), v.ps.len()));
    let me = v.ms[m].p->0 as int;
    let start = v.steal_start(m);
    let n = v.ps.len() as int;
    lemma_next_victim(v, me, start, 0, false);
    lemma_next_victim(v, me, start, 0, true);
    let a = v.next_victim(me, start, 0, false);
    let b = v.next_victim(me, start, 0, true);
    assert(0 <= v.victim(start, a as int) < n) by {
        vstd::arithmetic::div_mod::lemma_mod_bound(start + a, n);
    }
    assert(0 <= v.victim(start, b as int) < n) by {
        vstd::arithmetic::div_mod::lemma_mod_bound(start + b, n);
    }
}

/// A thread that steals goes round the processors, from a place that its number
/// gives, and takes from the first other one with something on its ring: half of
/// that, rounded up.  It runs the last of what it took, and the others go behind
/// what waits on its own ring, in their order.
pub proof fn a_thief_goes_round(v: RtView, m: int, i: int)
    requires
        v.names(),
        0 <= m < v.ms.len(),
        v.ms[m].p is Some,
        0 <= i < v.ps.len(),
        v.ms[m].id >= 0,
        ({
            let n = v.ps.len() as int;
            let start = (v.ms[m].id as usize).wrapping_mul(0x9e37_79b9) as int % n;
            let me = v.ms[m].p->0;
            let q = (start + i) % n;
            &&& q != me && v.ps[q].ring.len() > 0
            &&& forall|j: int|
                0 <= j < i ==> #[trigger] v.victim(start, j) == me || v.ps[v.victim(
                    start,
                    j,
                )].ring.len() == 0
        }),
    ensures
        ({
            let n = v.ps.len() as int;
            let start = (v.ms[m].id as usize).wrapping_mul(0x9e37_79b9) as int % n;
            let me = v.ms[m].p->0 as int;
            let q = (start + i) % n;
            let x = v.ps[q].ring;
            let k = (x.len() + 1) / 2;
            let w = v.stolen(m).1;
            &&& v.stolen(m).0 == Some(x[k - 1])
            &&& w.ps[q] == (PView { ring: x.skip(k as int), ..v.ps[q] })
            &&& w.ps[me] == (PView { ring: v.ps[me].ring + x.take(k - 1), ..v.ps[me] })
            &&& forall|p: int|
                0 <= p < v.ps.len() && p != q && p != me ==> #[trigger] w.ps[p] == v.ps[p]
        }),
{
    assert(m_names(v.ms[m], v.gs.len(), v.ps.len()));
    let n = v.ps.len() as int;
    let start = v.steal_start(m);
    let me = v.ms[m].p->0 as int;
    let q = v.victim(start, i);
    vstd::arithmetic::div_mod::lemma_mod_bound(start + i, n);
    assert(0 <= q < n && q != me);
    lemma_first_victim(v, me, start, i, false);
    assert(v.stolen(m) == (PView::prize(v.ps[q].loot(false)), v.robbery(me, q, false)));
    let x = v.ps[q].ring;
    let k = (x.len() + 1) / 2;
    assert(x.len() - x.len() / 2 == k);
    assert(v.ps[q].loot(false) =~= x.take(k as int));
    assert(v.ps[q].loot(false).drop_last() =~= x.take(k - 1));
    assert(v.ps[q].loot(false).last() == x[k - 1]);
}

proof fn lemma_first_victim(v: RtView, me: int, start: int, i: int, steal_run_next: bool)
    requires
        0 <= i < v.ps.len(),
        v.victim(start, i) != me,
        v.ps[v.victim(start, i)].loot(steal_run_next).len() > 0,
        forall|j: int|
            0 <= j < i ==> #[trigger] v.victim(start, j) == me || v.ps[v.victim(start, j)].loot(
                steal_run_next,
            ).len() == 0,
    ensures
        v.next_victim(me, start, 0, steal_run_next) == i,
{
    lemma_next_victim(v, me, start, 0, steal_run_next);
    let a = v.next_victim(me, start, 0, steal_run_next) as int;
    if i < a {
        assert(v.victim(start, i) == me || v.ps[v.victim(start, i)].loot(steal_run_next).len()
            == 0);
    } else if a < i {
        assert(v.victim(start, a) == me || v.ps[v.victim(start, a)].loot(steal_run_next).len()
            == 0);
    }
}

/// A thread without a processor finds only what waits on the global queue, the
/// longest first.
pub proof fn without_a_processor_only_the_global_queue_serves(v: RtView, m: int)
    requires
        v.names(),
        0 <= m < v.ms.len(),
        v.ms[m].p is None,
    ensures
        v.global.len() > 0 ==> v.found(m).0 == Some(v.global[0]) && v.found(m).1 == (RtView {
            global: v.global.skip(1),
            ..v
        }),
        v.global.len() == 0 ==> v.found(m) == (None::<usize>, v),
{
}

/// Where no other processor has anything on its ring, a thief goes round once more
/// for what is to run next on the first other one that has such, and runs that;
/// nothing else moves.
pub proof fn a_thief_takes_what_is_next_last(v: RtView, m: int, i: int)
    requires
        v.names(),
        0 <= m < v.ms.len(),
        v.ms[m].p is Some,
        0 <= i < v.ps.len(),
        v.ms[m].id >= 0,
        forall|p: int|
            0 <= p < v.ps.len() && p != v.ms[m].p->0 ==> (#[trigger] v.ps[p]).ring.len() == 0,
        ({
            let n = v.ps.len() as int;
            let start = (v.ms[m].id as usize).wrapping_mul(0x9e37_79b9) as int % n;
            let me = v.ms[m].p->0;
            let q = (start + i) % n;
            &&& q != me && v.ps[q].runnext is Some
            &&& forall|j: int|
                0 <= j < i ==> #[trigger] v.victim(start, j) == me || v.ps[v.victim(
                    start,
                    j,
                )].runnext is None
        }),
    ensures
        ({
            let n = v.ps.len() as int;
            let start = (v.ms[m].id as usize).wrapping_mul(0x9e37_79b9) as int % n;
            let q = (start + i) % n;
            let w = v.stolen(m).1;
            &&& v.stolen(m).0 == v.ps[q].runnext
            &&& w.ps[q] == (PView { runnext: None, ..v.ps[q] })
            &&& forall|p: int| 0 <= p < v.ps.len() && p != q ==> #[trigger] w.ps[p] == v.ps[p]
        }),
{
    assert(m_names(v.ms[m], v.gs.len(), v.ps.len()));
    let n = v.ps.len() as int;
    let start = v.steal_start(m);
    let me = v.ms[m].p->0 as int;
    let q = v.victim(start, i);
    vstd::arithmetic::div_mod::lemma_mod_bound(start + i, n);
    assert(0 <= q < n && q != me);
    lemma_next_victim(v, me, start, 0, false);
    let a = v.next_victim(me, start, 0, false);
    assert(a == n) by {
        if a < n {
            vstd::arithmetic::div_mod::lemma_mod_bound(start + a, n);
            assert(v.ps[v.victim(start, a as int)].ring.len() == 0);
        }
    }
    assert(v.ps[q].ring.len() == 0);
    assert forall|j: int| 0 <= j < i implies #[trigger] v.victim(start, j) == me || v.ps[v.victim(
        start,
        j,
    )].loot(true).len() == 0 by {
        vstd::arithmetic::div_mod::lemma_mod_bound(start + j, n);
        if v.victim(start, j) != me {
            assert(v.ps[v.victim(start, j)].ring.len() == 0);
        }
    }
    lemma_first_victim(v, me, start, i, true);
    assert(v.stolen(m) == (PView::prize(v.ps[q].loot(true)), v.robbery(me, q, true)));
    let loot = v.ps[q].loot(true);
    assert(loot.last() == v.ps[q].runnext->0);
    assert(v.ps[me].ring + loot.drop_last() =~= v.ps[me].ring);
}

/// A thread that takes a processor holds it, and the processor runs with it; a
/// processor that goes idle has no thread and comes last on the idle list.  What
/// waits on it stays in either case.
pub proof fn holding_and_letting_go_change_no_more(v: RtView, m: int, p: int)
    requires
        0 <= m < v.ms.len(),
        0 <= p < v.ps.len(),
    ensures
        ({
            let w = v.attached(m, p);
            &&& w.ps[p] == (PView { status: 1, m: Some(m as usize), ..v.ps[p] })
            &&& w.ms[m] == (M { p: Some(p as usize), ..v.ms[m] })
            &&& w == (RtView { ps: w.ps, ms: w.ms, ..v })
            &&& forall|q: int| 0 <= q < v.ps.len() && q != p ==> #[trigger] w.ps[q] == v.ps[q]
            &&& forall|t: int| 0 <= t < v.ms.len() && t != m ==> #[trigger] w.ms[t] == v.ms[t]
        }),
        ({
            let w = v.idled(p);
            &&& w.ps[p] == (PView { status: 0, m: None, ..v.ps[p] })
            &&& w.idle_p == v.idle_p.push(p as usize)
            &&& w == (RtView { ps: w.ps, idle_p: w.idle_p, ..v })
            &&& forall|q: int| 0 <= q < v.ps.len() && q != p ==> #[trigger] w.ps[q] == v.ps[q]
        }),
{
}

} // verus!
