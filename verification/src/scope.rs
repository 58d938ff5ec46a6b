//! Goroutines that end before the function that started them returns.

use vstd::prelude::*;

use crate::chan::{lemma_wf_sound, ChanView, Chans, ChansView, Receiver, Sender};
use crate::runtime::g::{scan_flag_hides_nothing, Stack, WaitReason, G, GRUNNABLE};
use crate::runtime::panics::Payload;
use crate::runtime::park::{lemma_parked_status, ready_touches_only_its_goroutine, Ready};
use crate::runtime::run::{usable, Arch, Entry, StackWrite};
use crate::runtime::sched::{opt_below, Rt, RtView};
use crate::select::{
    a_send_goes_through_when_it_can, held, poll_order_is_a_permutation, poll_order_of, recv_case_of, registered, selectgo,
    selectgo_finish, SCase, SelectStep, Tried, TryResult,
};
use crate::sync::waitgroup::{lemma_let_go_keeps_len, settled, WaitGroup, WaitStep};

verus! {

/// The goroutines of one scope.
pub struct Scope {
    /// Counts those that have not ended.
    pub wg: WaitGroup,
    /// The result channels of those that have not ended.
    pub live: Ghost<Set<usize>>,
}

/// Where the result of a goroutine will come from.  It cannot be copied: a result
/// is taken once.
#[derive(Debug, PartialEq, Eq, Structural)]
pub struct ScopedJoinHandle {
    pub rx: Receiver,
}

/// A goroutine that was just started.
pub struct Spawned {
    /// For whoever wants its result.
    pub handle: ScopedJoinHandle,
    /// For the goroutine itself, to send its result.
    pub tx: Sender,
    /// The goroutine.
    pub gp: usize,
    /// A word to be written to its stack before it runs.
    pub write: Option<StackWrite>,
}

/// What somebody who wants a goroutine's result does next.
pub enum JoinStep<R> {
    /// Here it is.  The goroutine in `retry` was about to park and is to be made
    /// ready again until it is.
    Ready { result: Result<R, Payload>, retry: Option<usize> },
    /// It parks, and comes back with this case.
    Park(Vec<SCase<Result<R, Payload>>>),
}

/// What the function that opened a scope does next.
pub enum ScopeStep<R> {
    /// It waits; the outcome of its body is kept until it comes back.
    Wait(WaitStep, Result<R, Payload>),
    /// It returns the value of its body.
    Return(R),
    /// It panics as its body did.
    Panic(Payload),
}

impl Scope {
    /// The counter counts the goroutines that have not ended; their channels
    /// are among `nchans`.
    pub open spec fn wf(self, nchans: nat) -> bool {
        &&& self.wg.wf()
        &&& self.live@.finite()
        &&& self.live@.len() == self.wg.count
        &&& forall|c: usize| #[trigger] self.live@.contains(c) ==> c < nchans
    }

    /// A scope without goroutines.
    pub fn new() -> (s: Scope)
        ensures
            s.wf(0),
            s.wg.count == 0,
            s.wg.waiters@ == Seq::<usize>::empty(),
            !s.wg.mu.locked,
            s.live@ == Set::<usize>::empty(),
    {
        Scope { wg: WaitGroup::new(), live: Ghost(Set::empty()) }
    }

    /// Starts a goroutine that runs the closure `ctxt`.
    ///
    /// Its result will go through a channel of its own, which takes one value,
    /// so that the goroutine never waits for somebody to take it.
    pub fn spawn<R>(
        &mut self,
        chans: &mut Chans<Result<R, Payload>>,
        rt: &mut Rt,
        m: Option<usize>,
        ctxt: usize,
        entry: Entry,
        fresh: Option<Stack>,
    ) -> (r: Spawned)
        requires
            old(self).wf(old(chans)@.chans.len()),
            old(chans).wf(),
            old(rt).wf(),
            old(self).wg.fits(old(rt)@.gs),
            !old(self).wg.mu.locked,
            opt_below(m, old(rt)@.ms.len()),
            old(self).wg.count < i64::MAX,
            2 * old(chans)@.chans.len() + 2 <= usize::MAX,
            old(rt)@.lacks_stack() ==> fresh is Some,
            usable(old(rt)@.next_stack(fresh)),
        ensures
            final(self).wf(final(chans)@.chans.len()),
            final(chans).wf(),
            final(rt).wf(),
            final(self).wg.fits(final(rt)@.gs),
            !final(self).wg.mu.locked,
            final(self).wg.count == old(self).wg.count + 1,
            final(self).wg.waiters@ == old(self).wg.waiters@,
            r.tx.chan == old(chans)@.chans.len(),
            r.handle.rx.chan == r.tx.chan,
            r.gp == old(rt)@.next_g(),
            r.write == (if entry.arch == Arch::X86_64 {
                Some(
                    StackWrite {
                        addr: (old(rt)@.next_stack(fresh).hi - 8) as u64,
                        value: entry.exit_pc,
                    },
                )
            } else {
                None
            }),
            final(self).live@ == old(self).live@.insert(r.tx.chan),
            final(chans)@ == (ChansView {
                chans: old(chans)@.chans.push(ChanView::fresh(1)),
                ..old(chans)@
            }),
            final(rt)@ == old(rt)@.spawned(ctxt, entry, fresh),
    {
        let _ = self.wg.add(rt, m, 1);
        let (tx, rx) = chans.chan(1);
        let ghost v = rt@;
        let (gp, write) = rt.spawn_goroutine(ctxt, entry, fresh);
        proof {
            scan_flag_hides_nothing(GRUNNABLE);
            let w = rt@;
            assert(w.gs == v.with_new_g(ctxt, entry, fresh).gs);
            assert forall|i: int| 0 <= i < self.wg.waiters@.len() implies w.gs[(
            #[trigger] self.wg.waiters@[i]) as int].readiness() != Ready::Spin by {
                let g = self.wg.waiters@[i];
                assert(v.gs[g as int].readiness() != Ready::Spin);
                if g != gp {
                    assert(w.gs[g as int] == v.gs[g as int]);
                }
            }
        }
        self.live = Ghost(self.live@.insert(tx.chan));
        Spawned { handle: ScopedJoinHandle { rx }, tx, gp, write }
    }

    /// Ends a goroutine of the scope, from thread `m`, with the outcome of its
    /// closure: sends it through the goroutine's channel, and only then counts
    /// the goroutine as ended.
    ///
    /// Says whether it was the last one; and which goroutine was about to park
    /// and is to be made ready again until it is.
    pub fn finish<R>(
        &mut self,
        chans: &mut Chans<Result<R, Payload>>,
        rt: &mut Rt,
        m: Option<usize>,
        tx: Sender,
        result: Result<R, Payload>,
    ) -> (r: (bool, Option<usize>))
        requires
            old(self).wf(old(chans)@.chans.len()),
            old(self).live@.contains(tx.chan),
            old(chans).wf(),
            old(chans)@.names(old(rt)@.gs.len()),
            old(rt).wf(),
            old(self).wg.fits(old(rt)@.gs),
            !old(self).wg.mu.locked,
            opt_below(m, old(rt)@.ms.len()),
            !old(chans)@.chans[tx.chan as int].closed,
            old(chans)@.chans[tx.chan as int].buf.len() < old(chans)@.chans[tx.chan as int].cap,
        ensures
            final(self).wf(final(chans)@.chans.len()),
            final(chans).wf(),
            final(chans)@.names(final(rt)@.gs.len()),
            final(rt).wf(),
            final(self).wg.fits(final(rt)@.gs),
            !final(self).wg.mu.locked,
            final(self).live@ == old(self).live@.remove(tx.chan),
            final(self).wg.count == old(self).wg.count - 1,
            r.0 == (final(self).live@ == Set::<usize>::empty()),
            ({
                let t = old(chans)@.tried_send(old(rt)@.gs, tx.chan as int, Some(result));
                let (v, retry) = delivered(old(rt)@, m, t);
                &&& final(chans)@ == t.v
                &&& r.1 == retry
                &&& final(self).wg.waiters@ == (if r.0 {
                    Seq::empty()
                } else {
                    old(self).wg.waiters@
                })
                &&& final(rt)@ == (if r.0 {
                    v.let_go(m, old(self).wg.waiters@, old(self).wg.waiters@.len())
                } else {
                    v
                })
            }),
    {
        let ghost rt0 = rt@;
        let ghost chans0 = *chans;
        let ghost t = chans@.tried_send(rt@.gs, tx.chan as int, Some(result));
        let mut elem: Option<Result<R, Payload>> = Some(result);
        let res: TryResult = chans.try_send(&mut rt.gs, tx.chan, &mut elem);
        assert(rt@ =~= rt0.with_gs(t.gs));
        proof {
            lemma_wf_sound(chans0);
            assert(chans0@.chans[tx.chan as int].sound());
            lemma_try_keeps_readiness(chans0@, rt0.gs, tx.chan, Some(result));
            assert(settled(self.wg.waiters@, rt@.gs)) by {
                assert forall|i: int| 0 <= i < self.wg.waiters@.len() implies rt@.gs[(
                #[trigger] self.wg.waiters@[i]) as int].readiness() != Ready::Spin by {
                    let g = self.wg.waiters@[i] as int;
                    assert(rt0.gs[g].readiness() != Ready::Spin);
                    assert(rt@.gs[g].readiness() == rt0.gs[g].readiness());
                }
            }
        }
        let mut retry: Option<usize> = None;
        if let TryResult::Handoff { gp, ok } = res {
            let ghost mid = rt@;
            let step: Ready = rt.goready_step(m, gp);
            proof {
                ready_touches_only_its_goroutine(mid, m, gp);
                assert(settled(self.wg.waiters@, rt@.gs)) by {
                    assert forall|i: int| 0 <= i < self.wg.waiters@.len() implies rt@.gs[(
                    #[trigger] self.wg.waiters@[i]) as int].readiness() != Ready::Spin by {
                        let g = self.wg.waiters@[i] as int;
                        assert(mid.gs[g].readiness() != Ready::Spin);
                        if g != gp {
                            assert(rt@.gs[g] == mid.gs[g]);
                        }
                    }
                }
            }
            if let Ready::Spin = step {
                retry = Some(gp);
            }
        }
        assert((rt@, retry) == delivered(rt0, m, t));
        proof {
            if self.wg.count == 0 {
                vstd::set_lib::lemma_set_empty_equivalency_len(self.live@);
            }
        }
        let ghost live0 = self.live@;
        let ghost v1 = rt@;
        let ghost list = self.wg.waiters@;
        let zero: bool = self.wg.done(rt, m);
        self.live = Ghost(self.live@.remove(tx.chan));
        proof {
            if self.live@.len() == 0 {
                vstd::set_lib::lemma_set_empty_equivalency_len(self.live@);
            }
            if zero {
                lemma_let_go_keeps_len(v1, m, list);
            }
        }
        (zero, retry)
    }
}

/// The state after a try was made whose partner, if it has one, is to be made
/// ready from thread `m`; and the partner, where that has to be tried again.
pub open spec fn delivered<V>(rt: RtView, m: Option<usize>, t: Tried<V>) -> (RtView, Option<usize>) {
    let v = rt.with_gs(t.gs);
    match t.res {
        TryResult::Handoff { gp, ok } => (
            v.readied(m, gp),
            if v.gs[gp as int].readiness() == Ready::Spin {
                Some(gp)
            } else {
                None
            },
        ),
        _ => (v, None),
    }
}

/// Trying to send changes no goroutine's readiness.
proof fn lemma_try_keeps_readiness<V>(v: ChansView<V>, gs: Seq<G>, c: usize, elem: Option<V>)
    requires
        v.sound(),
        v.names(gs.len()),
        c < v.chans.len(),
    ensures
        ({
            let t = v.tried_send(gs, c as int, elem);
            &&& t.gs.len() == gs.len()
            &&& forall|g: int|
                0 <= g < gs.len() ==> (#[trigger] t.gs[g]).readiness() == gs[g].readiness()
            &&& t.res is Handoff ==> t.res->gp < gs.len()
        }),
{
    assert(v.chans[c as int].sound());
}

/// Begins to leave scope `s`, after its body had the outcome `outer`: waits
/// as goroutine `gp` on thread `m` until every goroutine of the scope has
/// ended.  The scope's counter is known as `me`.
///
/// Only then does it return what the body returned, or panic as the body
/// did.
pub fn scope<R>(
    s: &mut Scope,
    rt: &mut Rt,
    runs: Option<(usize, usize)>,
    me: usize,
    outer: Result<R, Payload>,
) -> (step: ScopeStep<R>)
    requires
        exists|n: nat| #[trigger] old(s).wf(n),
        old(rt).wf(),
        old(s).wg.fits(old(rt)@.gs),
        !old(s).wg.mu.locked,
        runs matches Some((m, gp)) ==> m < old(rt)@.ms.len() && gp < old(rt)@.gs.len()
            && old(rt)@.ms[m as int].locks < i32::MAX,
    ensures
        forall|n: nat| #[trigger] old(s).wf(n) ==> final(s).wf(n),
        final(rt).wf(),
        final(s).wg.fits(final(rt)@.gs),
        final(s).live@ == old(s).live@,
        final(s).wg.count == old(s).wg.count,
        old(s).live@ == Set::<usize>::empty() ==> {
            &&& step == (match outer {
                Ok(v) => ScopeStep::Return(v),
                Err(p) => ScopeStep::Panic(p),
            })
            &&& final(rt)@ == old(rt)@
            &&& final(s).wg.waiters@ == old(s).wg.waiters@
            &&& !final(s).wg.mu.locked
        },
        old(s).live@ != Set::<usize>::empty() ==> match runs {
            None => step == ScopeStep::Wait(WaitStep::Sleep, outer) && final(rt)@ == old(rt)@
                && final(s).wg.waiters@ == old(s).wg.waiters@ && !final(s).wg.mu.locked,
            Some((m, gp)) => step == ScopeStep::Wait(WaitStep::Park, outer) && final(rt)@
                == old(rt)@.waits_on(m as int, gp as int, me) && final(s).wg.waiters@
                == old(s).wg.waiters@.push(gp) && final(s).wg.mu.locked,
        },
{
    proof {
        let n = choose|n: nat| #[trigger] old(s).wf(n);
        if s.live@.len() == 0 {
            vstd::set_lib::lemma_set_empty_equivalency_len(s.live@);
        }
    }
    match s.wg.wait(rt, runs, me) {
        WaitStep::Done => match outer {
            Ok(v) => ScopeStep::Return(v),
            Err(p) => ScopeStep::Panic(p),
        },
        step => ScopeStep::Wait(step, outer),
    }
}

/// The case of taking a goroutine's result.
pub open spec fn result_case<R>(rx: Receiver) -> SCase<Result<R, Payload>> {
    SCase { chan: rx.chan, sg: None, elem: None, send: false }
}

/// Looking at a single case is trying it.
proof fn lemma_single_case<V>(
    v: ChansView<V>,
    gs: Seq<G>,
    case: SCase<V>,
    goid: Option<u64>,
)
    ensures
        ({
            let t = v.tried(gs, case);
            let q = v.polled(gs, seq![case], poll_order_of(1, goid), 0);
            &&& q.v == t.v
            &&& t.res == TryResult::NotReady ==> q.found is None && q.gs == gs && q.cases
                == seq![case]
            &&& t.res != TryResult::NotReady ==> q.found == Some((0usize, t.res)) && q.gs == t.gs
                && q.cases == seq![SCase { elem: t.elem, ..case }]
        }),
{
    poll_order_is_a_permutation(1, goid);
    let order = poll_order_of(1, goid);
    assert(order.contains(order[0]));
    let t = v.tried(gs, case);
    assert(seq![case].update(0, SCase { elem: t.elem, ..case }) =~= seq![
        SCase { elem: t.elem, ..case },
    ]);
    reveal_with_fuel(ChansView::polled, 2);
}

impl ScopedJoinHandle {
    /// Takes the result of the goroutine, as goroutine `gp` on thread `m`; parks
    /// where there is none yet.
    pub fn join<R>(
        self,
        chans: &mut Chans<Result<R, Payload>>,
        rt: &mut Rt,
        m: Option<usize>,
        gp: usize,
    ) -> (step: JoinStep<R>)
        requires
            old(chans).wf(),
            old(rt).wf(),
            old(chans)@.names(old(rt)@.gs.len()),
            opt_below(m, old(rt)@.ms.len()),
            gp < old(rt)@.gs.len(),
            self.rx.chan < old(chans)@.chans.len(),
            opt_below(old(rt)@.processor(m), old(chans)@.pool.locals.len()),
            old(chans)@.chans[self.rx.chan as int].closed
                ==> old(chans)@.chans[self.rx.chan as int].buf.len() > 0,
        ensures
            final(chans).wf(),
            final(rt).wf(),
            final(chans)@.names(final(rt)@.gs.len()),
            ({
                let t = old(chans)@.tried_recv(old(rt)@.gs, self.rx.chan as int, None);
                let (v, retry) = delivered(old(rt)@, m, t);
                &&& t.res != TryResult::NotReady ==> {
                    &&& step == JoinStep::Ready { result: t.elem->0, retry }
                    &&& final(chans)@ == t.v
                    &&& final(rt)@ == v
                }
                &&& t.res == TryResult::NotReady ==> {
                    let e = t.v.enlisted(
                        seq![result_case(self.rx)],
                        old(rt)@.processor(m),
                        gp,
                        1,
                    );
                    &&& step is Park
                    &&& step->0@ == e.cases
                    &&& final(chans)@ == e.v
                    &&& registered(e.v, gp, e.cases)
                    &&& held(*final(chans), e.cases)
                    &&& final(rt)@ == old(rt)@.with_g(
                        gp as int,
                        G {
                            selectdone: 0,
                            param: None,
                            waitreason: WaitReason::Select,
                            ..old(rt)@.gs[gp as int]
                        },
                    )
                }
            }),
    {
        let mut cases: Vec<SCase<Result<R, Payload>>> = Vec::new();
        cases.push(recv_case_of(&self.rx, None));
        let ghost case = result_case::<R>(self.rx);
        let ghost v = chans@;
        let ghost gs = rt@.gs;
        let ghost rt0 = rt@;
        proof {
            assert(cases@ =~= seq![case]);
            lemma_single_case(v, gs, case, rt@.number(Some(gp)));
            lemma_wf_sound(*chans);
            assert(v.chans[self.rx.chan as int].sound());
        }
        match selectgo(chans, rt, m, Some(gp), &mut cases, false) {
            SelectStep::Chosen { index, ok, retry } => {
                let r: Option<Result<R, Payload>> = cases[0].elem.take();
                JoinStep::Ready { result: r.unwrap(), retry }
            },
            _ => {
                assert(rt@.gs =~= rt0.with_g(
                    gp as int,
                    G {
                        selectdone: 0,
                        param: None,
                        waitreason: WaitReason::Select,
                        ..rt0.gs[gp as int]
                    },
                ).gs);
                JoinStep::Park(cases)
            },
        }
    }
}

/// Takes the result that a goroutine has got while it was parked in
/// [`ScopedJoinHandle::join`].
pub fn join_finish<R>(
    chans: &mut Chans<Result<R, Payload>>,
    rt: &mut Rt,
    m: Option<usize>,
    gp: usize,
    cases: Vec<SCase<Result<R, Payload>>>,
) -> (result: Result<R, Payload>)
    requires
        old(chans).wf(),
        old(rt).wf(),
        opt_below(m, old(rt)@.ms.len()),
        gp < old(rt)@.gs.len(),
        opt_below(old(rt)@.processor(m), old(chans)@.pool.locals.len()),
        cases@.len() == 1,
        registered(old(chans)@, gp, cases@),
        held(*old(chans), cases@),
        old(chans)@.names(old(rt)@.gs.len()),
        old(rt)@.gs[gp as int].param == cases@[0].sg,
        forall|c: int|
            0 <= c < old(chans)@.chans.len() ==> !(#[trigger] old(chans)@.chans[c]).sendq.contains(
                cases@[0].sg->0,
            ) && !old(chans)@.chans[c].recvq.contains(cases@[0].sg->0),
        old(chans)@.recovered(cases@[0]).elem is Some,
    ensures
        final(chans).wf(),
        final(rt).wf(),
        final(chans)@.names(final(rt)@.gs.len()),
        result == old(chans)@.recovered(cases@[0]).elem->0,
        final(chans)@ == old(chans)@.unqueued(cases@, 0, 1).given_back(
            cases@,
            old(rt)@.processor(m),
            1,
        ),
        final(rt)@ == old(rt)@.with_g(gp as int, G { param: None, ..old(rt)@.gs[gp as int] }),
{
    let mut cases: Vec<SCase<Result<R, Payload>>> = cases;
    let ghost cs = cases@;
    assert(cs[0].sg == rt@.gs[gp as int].param);
    let _ = selectgo_finish(chans, rt, m, gp, &mut cases);
    assert(cases@[0] == old(chans)@.recovered(cs[0]));
    let r: Option<Result<R, Payload>> = cases[0].elem.take();
    r.unwrap()
}

/// What a goroutine of a scope ends with is what whoever joins it gets.
pub proof fn result_reaches_the_joiner<R>(
    v: ChansView<Result<R, Payload>>,
    gs: Seq<G>,
    c: int,
    result: Result<R, Payload>,
)
    requires
        0 <= c < v.chans.len(),
        v.chans[c] == ChanView::<Result<R, Payload>>::fresh(1),
    ensures
        ({
            let t = v.tried_send(gs, c, Some(result));
            let u = t.v.tried_recv(t.gs, c, None);
            &&& t.res == TryResult::Done { ok: true }
            &&& u.res == TryResult::Done { ok: true }
            &&& u.elem == Some(result)
        }),
{
}

/// Whoever was met by a try is made runnable if it had parked; it is named to be
/// tried again exactly when it has yet to park.  A try that met nobody makes
/// nobody ready.
pub proof fn whoever_was_met_goes_on<V>(rt: RtView, m: Option<usize>, t: Tried<V>, g: int)
    requires
        rt.with_gs(t.gs).names(),
        opt_below(m, rt.ms.len()),
        t.res matches TryResult::Handoff { gp, .. } ==> gp < t.gs.len(),
        0 <= g < t.gs.len(),
    ensures
        ({
            let (v, retry) = delivered(rt, m, t);
            &&& t.res !is Handoff ==> v.gs == t.gs && retry is None && v.global == rt.global && v.ps
                == rt.ps
            &&& t.res matches TryResult::Handoff { gp, .. } ==> {
                let x = t.gs[gp as int];
                &&& x.atomicstatus == 4 ==> v.gs[gp as int] == (G { atomicstatus: 1, ..x })
                    && retry is None
                &&& x.status() == 1 || x.status() == 6 ==> v.gs[gp as int] == x && retry is None
                &&& x.atomicstatus != 4 && x.status() != 1 && x.status() != 6 ==> v.gs[gp as int]
                    == x && retry == Some(gp)
                &&& g != gp ==> v.gs[g] == t.gs[g]
            }
        }),
{
    if let TryResult::Handoff { gp, .. } = t.res {
        ready_touches_only_its_goroutine(rt.with_gs(t.gs), m, gp);
        lemma_parked_status(t.gs[gp as int]);
    }
}

/// A goroutine of a scope never waits to leave its result: its channel is open,
/// empty, and takes one value.
pub proof fn a_result_always_finds_room<R>(
    v: ChansView<Result<R, Payload>>,
    gs: Seq<G>,
    c: int,
    result: Result<R, Payload>,
)
    requires
        v.sound(),
        v.names(gs.len()),
        0 <= c < v.chans.len(),
        v.chans[c].cap == 1,
        v.chans[c].buf.len() == 0,
        !v.chans[c].closed,
    ensures
        v.tried_send(gs, c, Some(result)).res != TryResult::NotReady,
        v.tried_send(gs, c, Some(result)).res != TryResult::ClosedSend,
        v.tried_send(gs, c, Some(result)).elem is None,
        ChanView::<Result<R, Payload>>::fresh(1).cap == 1,
        ChanView::<Result<R, Payload>>::fresh(1).buf.len() == 0,
        ChanView::<Result<R, Payload>>::fresh(1).sendq.len() == 0,
        ChanView::<Result<R, Payload>>::fresh(1).recvq.len() == 0,
        !ChanView::<Result<R, Payload>>::fresh(1).closed,
{
    a_send_goes_through_when_it_can(v, gs, c as usize, result, 0);
}

} // verus!
