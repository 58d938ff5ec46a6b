//! What every step of the scheduler keeps: no goroutine is lost or queued twice,
//! and no processor is held by two threads.

use vstd::prelude::*;

use super::g::{scan_flag_hides_nothing, Stack, G, GDEAD, GRUNNABLE, GRUNNING, GWAITING};
use super::p::{
    get_conserves, lemma_count_add, lemma_count_empty, lemma_count_push, lemma_count_split,
    lemma_count_one, put_conserves, steal_conserves, PView, PIDLE, PRUNNING, PSYSCALL,
};
use super::park::Ready;
use super::procs::{clamped, Config};
use super::run::Entry;
use super::sched::{
    all_below, lemma_last_wanted, lemma_same_spare, m_names, opt_below, p_names, RtView,
    GLOBAL_QUEUE_PERIOD,
};

verus! {

/// How often `g` waits on some processors.
pub open spec fn waiting_on(ps: Seq<PView>, g: usize) -> nat
    decreases ps.len(),
{
    if ps.len() == 0 {
        0
    } else {
        waiting_on(ps.drop_last(), g) + ps.last().count(g)
    }
}

impl RtView {
    /// How often `g` is on a run queue.
    pub open spec fn queued(self, g: usize) -> nat {
        self.global.to_multiset().count(g) + waiting_on(self.ps, g)
    }

    /// Goroutine `g` is on a run queue once if it is runnable, and else on none.
    /// A runnable goroutine in `hand` was taken from its queue to be run.
    pub open spec fn placed(self, g: usize, hand: Set<usize>) -> bool {
        let runnable = self.gs[g as int].status() == GRUNNABLE;
        &&& hand.contains(g) ==> runnable
        &&& self.queued(g) == (if runnable && !hand.contains(g) {
            1nat
        } else {
            0nat
        })
    }

    /// Every goroutine is where it belongs.
    pub open spec fn all_placed(self, hand: Set<usize>) -> bool {
        forall|g: usize| g < self.gs.len() ==> #[trigger] self.placed(g, hand)
    }
}

/// Counting after one processor changed.
proof fn lemma_update(ps: Seq<PView>, i: int, x: PView, g: usize)
    requires
        0 <= i < ps.len(),
    ensures
        waiting_on(ps.update(i, x), g) + ps[i].count(g) == waiting_on(ps, g) + x.count(g),
        waiting_on(ps, g) >= ps[i].count(g),
    decreases ps.len(),
{
    let t = ps.update(i, x);
    if i < ps.len() - 1 {
        lemma_update(ps.drop_last(), i, x, g);
        assert(t.drop_last() =~= ps.drop_last().update(i, x));
    } else {
        assert(t.drop_last() =~= ps.drop_last());
    }
}

/// Counting depends on the queues alone.
proof fn lemma_same_queues(a: Seq<PView>, b: Seq<PView>, g: usize)
    requires
        a.len() == b.len(),
        forall|i: int|
            0 <= i < a.len() ==> (#[trigger] a[i]).ring == b[i].ring && a[i].runnext
                == b[i].runnext,
    ensures
        waiting_on(a, g) == waiting_on(b, g),
    decreases a.len(),
{
    if a.len() > 0 {
        assert(a[a.len() - 1].ring == b[a.len() - 1].ring);
        assert forall|i: int| 0 <= i < a.len() - 1 implies (#[trigger] a.drop_last()[i]).ring
            == b.drop_last()[i].ring && a.drop_last()[i].runnext == b.drop_last()[i].runnext by {
            assert(a[i].ring == b[i].ring);
        }
        lemma_same_queues(a.drop_last(), b.drop_last(), g);
    }
}

/// A goroutine that does not exist is on no queue.
proof fn lemma_unknown(v: RtView, g: usize)
    requires
        v.names(),
        g >= v.gs.len(),
    ensures
        v.queued(g) == 0,
{
    broadcast use vstd::seq_lib::group_to_multiset_ensures;

    assert(v.global.to_multiset().count(g) == 0) by {
        if v.global.contains(g) {
            let i = v.global.index_of(g);
            assert(v.global[i] < v.gs.len());
        }
    }
    lemma_unknown_on(v.ps, v.gs.len(), v.ms.len(), g);
}

proof fn lemma_unknown_on(ps: Seq<PView>, ng: nat, nm: nat, g: usize)
    requires
        forall|i: int| 0 <= i < ps.len() ==> p_names(#[trigger] ps[i], ng, nm),
        g >= ng,
    ensures
        waiting_on(ps, g) == 0,
    decreases ps.len(),
{
    broadcast use vstd::seq_lib::group_to_multiset_ensures;

    if ps.len() > 0 {
        let r = ps.drop_last();
        assert forall|i: int| 0 <= i < r.len() implies p_names(#[trigger] r[i], ng, nm) by {
            assert(p_names(ps[i], ng, nm));
        }
        lemma_unknown_on(r, ng, nm, g);
        let x = ps.last();
        assert(p_names(ps[ps.len() - 1], ng, nm));
        if x.ring.contains(g) {
            let i = x.ring.index_of(g);
            assert(x.ring[i] < ng);
        }
    }
}

/// Bringing a thread to work moves no goroutine.
proof fn lemma_started_queues(v: RtView, p: Option<usize>, g: usize)
    requires
        v.names(),
        opt_below(p, v.ps.len()),
    ensures
        v.started(p).queued(g) == v.queued(g),
        v.started(p).gs == v.gs,
{
    let w = v.started(p);
    lemma_last_wanted(v, v.idle_p.len());
    assert(w.ps.len() == v.ps.len());
    lemma_same_queues(w.ps, v.ps, g);
}

/// Queueing a goroutine queues it once more, and no other.
proof fn lemma_enqueued_queues(v: RtView, m: Option<usize>, gp: usize, g: usize)
    requires
        v.names(),
        opt_below(m, v.ms.len()),
    ensures
        v.enqueued(m, gp).queued(g) == v.queued(g) + (if g == gp {
            1nat
        } else {
            0nat
        }),
        v.enqueued(m, gp).gs == v.gs,
{
    if m is Some && v.ms[m->0 as int].p is Some {
        let p = v.ms[m->0 as int].p->0 as int;
        assert(super::sched::m_names(v.ms[m->0 as int], v.gs.len(), v.ps.len()));
        let x = v.ps[p];
        put_conserves(x, gp, true, g);
        lemma_count_add(v.global, x.put_spill(gp, true), g);
        lemma_update(v.ps, p, x.put(gp, true), g);
    } else {
        lemma_count_push(v.global, gp, g);
    }
}

/// Making a parked goroutine ready puts it on a queue, once, and moves no other.
pub proof fn readying_keeps_places(v: RtView, m: Option<usize>, gp: usize, hand: Set<usize>)
    requires
        v.names(),
        opt_below(m, v.ms.len()),
        gp < v.gs.len(),
        v.all_placed(hand),
    ensures
        v.readied(m, gp).all_placed(hand),
        v.gs[gp as int].readiness() == Ready::Readied ==> v.readied(m, gp).queued(gp) == 1,
{
    scan_flag_hides_nothing(GRUNNABLE);
    if v.gs[gp as int].readiness() == Ready::Readied {
        let x = G { atomicstatus: GRUNNABLE, ..v.gs[gp as int] };
        let a = v.with_g(gp as int, x);
        super::sched::with_g_keeps_names(v, gp as int, x);
        let b = a.enqueued(m, gp);
        super::park::enqueue_keeps_names(a, m, gp);
        let c = v.readied(m, gp);
        assert(v.placed(gp, hand));
        assert forall|g: usize| g < c.gs.len() implies #[trigger] c.placed(g, hand) by {
            assert(v.placed(g, hand));
            lemma_enqueued_queues(a, m, gp, g);
            lemma_started_queues(b, None, g);
            assert(a.queued(g) == v.queued(g));
        }
        assert(c.placed(gp, hand));
    }
}

/// A new goroutine is put on a queue, once, and no other is moved.
pub proof fn spawning_keeps_places(
    v: RtView,
    ctxt: usize,
    entry: Entry,
    fresh: Option<Stack>,
    hand: Set<usize>,
)
    requires
        v.names(),
        v.gs.len() < usize::MAX,
        v.all_placed(hand),
        forall|g: usize| hand.contains(g) ==> g < v.gs.len(),
        v.reuses() ==> v.gs[v.next_g() as int].status() == GDEAD,
    ensures
        v.spawned(ctxt, entry, fresh).all_placed(hand),
        v.spawned(ctxt, entry, fresh).queued(v.next_g()) == 1,
        v.spawned(ctxt, entry, fresh).gs[v.next_g() as int].status() == GRUNNABLE,
{
    scan_flag_hides_nothing(GRUNNABLE);
    let gp = v.next_g();
    let a = v.with_new_g(ctxt, entry, fresh);
    let b = RtView { allg: a.allg.push(gp), global: a.global.push(gp), ..a };
    let c = v.spawned(ctxt, entry, fresh);
    if v.reuses() {
        assert(v.g_free[v.g_free.len() - 1] < v.gs.len());
        assert(v.placed(gp, hand));
    } else {
        lemma_unknown(v, gp);
    }
    lemma_last_wanted(b, b.idle_p.len());
    assert(c.gs == a.gs && c.ps.len() == v.ps.len());
    assert forall|g: usize| g < c.gs.len() implies #[trigger] c.placed(g, hand) by {
        if g != gp {
            assert(v.placed(g, hand));
        }
        lemma_count_push(v.global, gp, g);
        assert(b.ps == v.ps && b.ms == v.ms && b.idle_p == v.idle_p && b.idle_m == v.idle_m);
        assert(b.queued(g) == v.queued(g) + (if g == gp {
            1nat
        } else {
            0nat
        }));
        lemma_same_queues(c.ps, b.ps, g);
    }
    assert(c.placed(gp, hand));
}

/// A thread that looks for work takes at most one goroutine off a queue, and has
/// it in hand; all others stay queued.
pub proof fn picking_keeps_places(v: RtView, m: int, hand: Set<usize>)
    requires
        v.names(),
        0 <= m < v.ms.len(),
        v.ms[m].p is Some,
        v.all_placed(hand),
    ensures
        ({
            let (gp, w) = v.picked(m);
            &&& gp is None ==> w.all_placed(hand)
            &&& gp is Some ==> !hand.contains(gp->0) && w.all_placed(hand.insert(gp->0))
        }),
{
    let (gp, w) = v.picked(m);
    let n = |g: usize| if gp == Some(g) {
        1nat
    } else {
        0nat
    };
    assert(w.gs == v.gs);
    assert forall|g: usize| g < v.gs.len() implies v.queued(g) == w.queued(g) + (if gp == Some(g) {
        1nat
    } else {
        0nat
    }) by {
        lemma_picked_queues(v, m, g);
    }
    if gp is Some {
        lemma_picked_exists(v, m);
        assert(v.placed(gp->0, hand));
    }
    let after = if gp is Some {
        hand.insert(gp->0)
    } else {
        hand
    };
    assert forall|g: usize| g < w.gs.len() implies #[trigger] w.placed(g, after) by {
        assert(v.placed(g, hand));
    }
}

proof fn lemma_picked_exists(v: RtView, m: int)
    requires
        v.names(),
        0 <= m < v.ms.len(),
        v.ms[m].p is Some,
        v.picked(m).0 is Some,
    ensures
        v.picked(m).0->0 < v.gs.len(),
{
    let own = v.ms[m].p->0 as int;
    assert(super::sched::m_names(v.ms[m], v.gs.len(), v.ps.len()));
    assert(p_names(v.ps[own], v.gs.len(), v.ms.len()));
    let start = v.steal_start(m);
    let a = v.next_victim(own, start, 0, false);
    let b = v.next_victim(own, start, 0, true);
    if v.ps.len() > 1 {
        lemma_victim_range(v, start, a as int);
        lemma_victim_range(v, start, b as int);
        assert(p_names(v.ps[v.victim(start, a as int)], v.gs.len(), v.ms.len()));
        assert(p_names(v.ps[v.victim(start, b as int)], v.gs.len(), v.ms.len()));
    }
}

proof fn lemma_victim_range(v: RtView, start: int, i: int)
    requires
        v.ps.len() > 0,
    ensures
        0 <= v.victim(start, i) < v.ps.len(),
{
    vstd::arithmetic::div_mod::lemma_mod_bound(start + i, v.ps.len() as int);
}

proof fn lemma_next_victim(v: RtView, me: int, start: int, i: nat, steal_run_next: bool)
    ensures
        ({
            let k = v.next_victim(me, start, i, steal_run_next);
            k < v.ps.len() ==> v.victim(start, k as int) != me && v.ps[v.victim(
                start,
                k as int,
            )].loot(steal_run_next).len() > 0
        }),
    decreases v.ps.len() - i,
{
    if i < v.ps.len() {
        lemma_next_victim(v, me, start, i + 1, steal_run_next);
    }
}

proof fn lemma_robbery_queues(v: RtView, me: int, victim: int, steal_run_next: bool, g: usize)
    requires
        0 <= me < v.ps.len(),
        0 <= victim < v.ps.len(),
        me != victim,
    ensures
        v.queued(g) == v.robbery(me, victim, steal_run_next).queued(g) + (if PView::prize(
            v.ps[victim].loot(steal_run_next),
        ) == Some(g) {
            1nat
        } else {
            0nat
        }),
{
    let loot = v.ps[victim].loot(steal_run_next);
    steal_conserves(v.ps[me], v.ps[victim], steal_run_next, g);
    lemma_update(v.ps, victim, v.ps[victim].robbed(steal_run_next), g);
    let ps = v.ps.update(victim, v.ps[victim].robbed(steal_run_next));
    lemma_update(ps, me, v.ps[me].enriched(loot), g);
}

proof fn lemma_picked_queues(v: RtView, m: int, g: usize)
    requires
        v.names(),
        0 <= m < v.ms.len(),
        v.ms[m].p is Some,
    ensures
        v.queued(g) == v.picked(m).1.queued(g) + (if v.picked(m).0 == Some(g) {
            1nat
        } else {
            0nat
        }),
{
    let own = v.ms[m].p->0 as int;
    assert(super::sched::m_names(v.ms[m], v.gs.len(), v.ps.len()));
    if v.global.len() > 0 {
        lemma_count_split(v.global, 1, g);
        assert(v.global.take(1) =~= seq![v.global[0]]);
        lemma_count_one(v.global[0], g);
    }
    get_conserves(v.ps[own], g);
    lemma_update(v.ps, own, v.ps[own].got(), g);
    let start = v.steal_start(m);
    let a = v.next_victim(own, start, 0, false);
    let b = v.next_victim(own, start, 0, true);
    if v.ps.len() > 1 {
        lemma_victim_range(v, start, a as int);
        lemma_victim_range(v, start, b as int);
        lemma_next_victim(v, own, start, 0, false);
        lemma_next_victim(v, own, start, 0, true);
        if a < v.ps.len() {
            lemma_robbery_queues(v, own, v.victim(start, a as int), false, g);
        }
        if b < v.ps.len() {
            lemma_robbery_queues(v, own, v.victim(start, b as int), true, g);
        }
    }
}

/// Running a goroutine that is in hand takes it out of the hand.
pub proof fn executing_keeps_places(v: RtView, m: int, gp: usize, hand: Set<usize>)
    requires
        v.names(),
        0 <= m < v.ms.len(),
        gp < v.gs.len(),
        hand.contains(gp),
        v.all_placed(hand),
    ensures
        v.executed(m, gp as int).all_placed(hand.remove(gp)),
{
    scan_flag_hides_nothing(GRUNNING);
    let w = v.executed(m, gp as int);
    assert(super::sched::m_names(v.ms[m], v.gs.len(), v.ps.len()));
    assert forall|g: usize| g < w.gs.len() implies #[trigger] w.placed(g, hand.remove(gp)) by {
        assert(v.placed(g, hand));
        lemma_same_queues(w.ps, v.ps, g);
    }
}

/// A goroutine that yields is queued again, once.
pub proof fn yielding_keeps_places(v: RtView, m: int, gp: usize, hand: Set<usize>)
    requires
        v.names(),
        gp < v.gs.len(),
        v.gs[gp as int].atomicstatus == GRUNNING,
        v.all_placed(hand),
    ensures
        v.yielded(m, gp as int).all_placed(hand),
        v.yielded(m, gp as int).queued(gp) == 1,
{
    scan_flag_hides_nothing(GRUNNING);
    scan_flag_hides_nothing(GRUNNABLE);
    let w = v.yielded(m, gp as int);
    assert(v.placed(gp, hand));
    assert forall|g: usize| g < w.gs.len() implies #[trigger] w.placed(g, hand) by {
        assert(v.placed(g, hand));
        lemma_count_push(v.global, gp, g);
    }
    assert(w.placed(gp, hand));
}

/// A goroutine that parks is on no queue.
pub proof fn parking_keeps_places(v: RtView, m: int, gp: usize, hand: Set<usize>)
    requires
        v.names(),
        gp < v.gs.len(),
        v.gs[gp as int].atomicstatus == GRUNNING,
        v.all_placed(hand),
    ensures
        v.parked(m, gp as int).all_placed(hand),
        v.parked(m, gp as int).queued(gp) == 0,
{
    scan_flag_hides_nothing(GRUNNING);
    scan_flag_hides_nothing(GWAITING);
    let w = v.parked(m, gp as int);
    assert forall|g: usize| g < w.gs.len() implies #[trigger] w.placed(g, hand) by {
        assert(v.placed(g, hand));
    }
    assert(w.placed(gp, hand));
}

/// A goroutine that ends is on no queue.
pub proof fn exiting_keeps_places(v: RtView, m: int, gp: usize, hand: Set<usize>)
    requires
        v.names(),
        gp < v.gs.len(),
        v.gs[gp as int].atomicstatus == GRUNNING,
        v.all_placed(hand),
    ensures
        v.exited(m, gp as int).all_placed(hand),
        v.exited(m, gp as int).queued(gp) == 0,
{
    scan_flag_hides_nothing(GRUNNING);
    scan_flag_hides_nothing(GDEAD);
    let w = v.exited(m, gp as int);
    assert(w.gs.len() == v.gs.len());
    assert forall|g: usize| g < w.gs.len() implies #[trigger] w.placed(g, hand) by {
        assert(v.placed(g, hand));
    }
    assert(w.placed(gp, hand));
}

/// A thread that goes idle, or goes on after all, moves no goroutine.
pub proof fn stopping_keeps_places(v: RtView, m: int, hand: Set<usize>)
    requires
        v.names(),
        0 <= m < v.ms.len(),
        v.all_placed(hand),
    ensures
        v.stopped(m).all_placed(hand),
{
    let w = v.stopped(m);
    assert(super::sched::m_names(v.ms[m], v.gs.len(), v.ps.len()));
    assert forall|g: usize| g < w.gs.len() implies #[trigger] w.placed(g, hand) by {
        assert(v.placed(g, hand));
        lemma_same_queues(w.ps, v.ps, g);
    }
}

/// A processor that the monitor takes away keeps its goroutines.
pub proof fn retaking_keeps_places(v: RtView, p: int, hand: Set<usize>)
    requires
        v.names(),
        0 <= p < v.ps.len(),
        v.all_placed(hand),
    ensures
        v.retaken(p).all_placed(hand),
{
    let w = v.retaken(p);
    assert forall|g: usize| g < w.gs.len() implies #[trigger] w.placed(g, hand) by {
        assert(v.placed(g, hand));
        lemma_same_queues(w.ps, v.ps, g);
    }
}

/// Around a system call goroutines stay where they are, but for the caller's own,
/// which is queued when there is no processor left for it.
pub proof fn system_calls_keep_places(v: RtView, m: usize, g: usize, hand: Set<usize>)
    requires
        v.names(),
        m < v.ms.len(),
        g < v.gs.len(),
        v.gs[g as int].atomicstatus == GRUNNING,
        v.all_placed(hand),
    ensures
        v.entered(Some(m)).all_placed(hand),
        v.came_out(Some(m), Some(g)).all_placed(hand),
{
    scan_flag_hides_nothing(GRUNNING);
    scan_flag_hides_nothing(GRUNNABLE);
    let a = v.entered(Some(m));
    let b = v.came_out(Some(m), Some(g));
    assert(super::sched::m_names(v.ms[m as int], v.gs.len(), v.ps.len()));
    assert forall|x: usize| x < a.gs.len() implies #[trigger] a.placed(x, hand) by {
        assert(v.placed(x, hand));
        lemma_same_queues(a.ps, v.ps, x);
    }
    assert(v.placed(g, hand));
    assert forall|x: usize| x < b.gs.len() implies #[trigger] b.placed(x, hand) by {
        assert(v.placed(x, hand));
        lemma_count_push(v.global, g, x);
        lemma_same_queues(b.ps, v.ps, x);
    }
}

/// Counting where processors without goroutines were added.
proof fn lemma_added(ps: Seq<PView>, more: Seq<PView>, g: usize)
    requires
        forall|i: int|
            0 <= i < more.len() ==> (#[trigger] more[i]).ring == Seq::<usize>::empty()
                && more[i].runnext is None,
    ensures
        waiting_on(ps + more, g) == waiting_on(ps, g),
    decreases more.len(),
{
    if more.len() == 0 {
        assert(ps + more =~= ps);
    } else {
        let t = ps + more;
        assert(t.drop_last() =~= ps + more.drop_last());
        lemma_added(ps, more.drop_last(), g);
        assert(t.last() == more[more.len() - 1]);
        lemma_count_empty(g);
    }
}

/// A change of the number of processors moves no goroutine.
pub proof fn resizing_keeps_places(v: RtView, n: int, stacks: Seq<Stack>, hand: Set<usize>)
    requires
        v.names(),
        v.gs.len() + 256 <= usize::MAX,
        v.all_placed(hand),
        forall|g: usize| hand.contains(g) ==> g < v.gs.len(),
    ensures
        v.resized(n, stacks).all_placed(hand),
{
    scan_flag_hides_nothing(super::g::GIDLE);
    let w = v.resized(n, stacks);
    let k = clamped(n) - v.gomaxprocs;
    assert forall|g: usize| g < w.gs.len() implies #[trigger] w.placed(g, hand) by {
        if k > 0 {
            let more = w.ps.skip(v.ps.len() as int);
            assert(w.ps =~= v.ps + more);
            lemma_added(v.ps, more, g);
        }
        if g < v.gs.len() {
            assert(v.placed(g, hand));
        } else {
            lemma_unknown(v, g);
        }
    }
}

impl RtView {
    /// A thread's processor runs and names that thread, and a processor that runs
    /// is held by the thread that it names.  Idle processors and idle threads
    /// are listed once each, and belong to nobody.
    pub open spec fn owned(self) -> bool {
        &&& self.ms.len() <= usize::MAX
        &&& forall|m: int|
            0 <= m < self.ms.len() && (#[trigger] self.ms[m]).p is Some
                ==> self.ps[self.ms[m].p->0 as int].status == PRUNNING
                && self.ps[self.ms[m].p->0 as int].m == Some(m as usize)
        &&& forall|p: int|
            0 <= p < self.ps.len() && (#[trigger] self.ps[p]).status == PRUNNING
                ==> self.ps[p].m is Some && self.ms[self.ps[p].m->0 as int].p == Some(p as usize)
        &&& forall|i: int|
            0 <= i < self.idle_p.len() ==> self.ps[(#[trigger] self.idle_p[i]) as int].status
                == PIDLE && self.ps[self.idle_p[i] as int].m is None
        &&& self.idle_p.no_duplicates()
        &&& forall|i: int|
            0 <= i < self.idle_m.len() ==> self.ms[(#[trigger] self.idle_m[i]) as int].p is None
        &&& self.idle_m.no_duplicates()
    }
}

/// Two threads never hold the same processor.
pub proof fn a_processor_has_one_holder(v: RtView, a: int, b: int)
    requires
        v.names(),
        v.owned(),
        0 <= a < v.ms.len(),
        0 <= b < v.ms.len(),
        v.ms[a].p is Some,
        v.ms[a].p == v.ms[b].p,
    ensures
        a == b,
{
}

/// Bringing an idle thread to work with an idle processor keeps the ownership.
pub proof fn starting_keeps_ownership(v: RtView)
    requires
        v.names(),
        v.owned(),
    ensures
        v.started(None).owned(),
{
    let w = v.started(None);
    lemma_last_wanted(v, v.idle_p.len());
    if v.idle_m.len() > 0 && v.spare() is Some {
        let m = v.idle_m.last();
        let at = v.spare()->0;
        let q = v.idle_p[at];
        assert(m == v.idle_m[v.idle_m.len() - 1]);
        assert(v.ps[q as int].status == PIDLE);
        assert(v.ms[m as int].p is None);
        assert forall|i: int| 0 <= i < w.idle_p.len() implies w.ps[(
        #[trigger] w.idle_p[i]) as int].status == PIDLE && w.ps[w.idle_p[i] as int].m is None by {
            let j = if i < at {
                i
            } else {
                i + 1
            };
            assert(w.idle_p[i] == v.idle_p[j]);
            assert(v.idle_p[j] != q);
        }
        assert forall|i: int| 0 <= i < w.idle_m.len() implies w.ms[(
        #[trigger] w.idle_m[i]) as int].p is None by {
            assert(w.idle_m[i] == v.idle_m[i]);
            assert(v.idle_m[i] != m);
        }
    }
}

/// Making a goroutine ready keeps the ownership.
pub proof fn readying_keeps_ownership(v: RtView, m: Option<usize>, gp: usize)
    requires
        v.names(),
        opt_below(m, v.ms.len()),
        gp < v.gs.len(),
        v.owned(),
    ensures
        v.readied(m, gp).owned(),
{
    if v.gs[gp as int].readiness() == Ready::Readied {
        let x = G { atomicstatus: GRUNNABLE, ..v.gs[gp as int] };
        let a = v.with_g(gp as int, x);
        super::sched::with_g_keeps_names(v, gp as int, x);
        let b = a.enqueued(m, gp);
        super::park::enqueue_keeps_names(a, m, gp);
        assert(b.owned()) by {
            assert(a.ms == v.ms && a.ps == v.ps);
            assert(b.ms == v.ms);
            assert forall|p: int| 0 <= p < b.ps.len() implies (#[trigger] b.ps[p]).status
                == v.ps[p].status && b.ps[p].m == v.ps[p].m by {}
            assert forall|p: int|
                0 <= p < b.ps.len() && (#[trigger] b.ps[p]).status == PRUNNING implies b.ps[p].m is Some
                && b.ms[b.ps[p].m->0 as int].p == Some(p as usize) by {
                assert(v.ps[p].status == PRUNNING);
            }
        }
        starting_keeps_ownership(b);
    }
}

/// A thread that goes idle, or goes on after all, keeps the ownership.
pub proof fn stopping_keeps_ownership(v: RtView, m: int)
    requires
        v.names(),
        0 <= m < v.ms.len(),
        v.owned(),
        !v.idle_m.contains(m as usize),
    ensures
        v.stopped(m).owned(),
{
    let w = v.stopped(m);
    let own = v.ms[m].p;
    assert(super::sched::m_names(v.ms[m], v.gs.len(), v.ps.len()));
    if own is Some && v.ps[own->0 as int].size() > 0 || v.shutdown {
    } else if v.may_go_on(m) {
        if own is Some {
            assert(w.ps =~= v.ps);
            assert(w.ms =~= v.ms);
        } else if v.idle_p.len() > 0 {
            let q = v.idle_p.last();
            assert(q == v.idle_p[v.idle_p.len() - 1]);
            assert(v.ps[q as int].status == PIDLE);
            assert forall|i: int| 0 <= i < w.idle_p.len() implies w.ps[(
            #[trigger] w.idle_p[i]) as int].status == PIDLE && w.ps[w.idle_p[i] as int].m is None by {
                assert(w.idle_p[i] == v.idle_p[i]);
                assert(v.idle_p[i] != q);
            }
            assert forall|i: int| 0 <= i < w.idle_m.len() implies w.ms[(
            #[trigger] w.idle_m[i]) as int].p is None by {
                assert(v.idle_m[i] != m as usize) by {
                    if v.idle_m[i] == m as usize {
                        assert(v.idle_m.contains(m as usize));
                    }
                }
            }
        }
    } else {
        if own is Some {
            let p = own->0;
            assert(!v.idle_p.contains(p)) by {
                if v.idle_p.contains(p) {
                    let i = v.idle_p.index_of(p);
                    assert(v.ps[v.idle_p[i] as int].status == PIDLE);
                }
            }
            assert forall|i: int| 0 <= i < w.idle_p.len() implies w.ps[(
            #[trigger] w.idle_p[i]) as int].status == PIDLE && w.ps[w.idle_p[i] as int].m is None by {
                if i < v.idle_p.len() {
                    assert(w.idle_p[i] == v.idle_p[i]);
                }
            }
            assert(w.idle_p.no_duplicates());
            assert forall|q: int| 0 <= q < w.ms.len() && (#[trigger] w.ms[q]).p is Some implies w.ps[
            w.ms[q].p->0 as int].status
                == PRUNNING && w.ps[w.ms[q].p->0 as int].m == Some(q as usize) by {
                assert(v.ms[q].p is Some);
                assert(v.ps[v.ms[q].p->0 as int].m == Some(q as usize));
            }
        }
        assert forall|i: int| 0 <= i < w.idle_m.len() implies w.ms[(
        #[trigger] w.idle_m[i]) as int].p is None by {
            if i < v.idle_m.len() {
                assert(w.idle_m[i] == v.idle_m[i]);
            }
        }
    }
}

/// Around a system call the ownership is kept: the thread lets go of its
/// processor, and takes it or an idle one when it comes back.
pub proof fn entering_keeps_ownership(v: RtView, m: usize)
    requires
        v.names(),
        m < v.ms.len(),
        v.owned(),
    ensures
        v.entered(Some(m)).owned(),
{
    let w = v.entered(Some(m));
    assert(super::sched::m_names(v.ms[m as int], v.gs.len(), v.ps.len()));
    if v.can_enter(Some(m)) {
        let p = v.ms[m as int].p->0;
        assert(v.ps[p as int].status == PRUNNING);
        assert forall|i: int| 0 <= i < w.idle_p.len() implies w.ps[(
        #[trigger] w.idle_p[i]) as int].status == PIDLE && w.ps[w.idle_p[i] as int].m is None by {
            assert(v.ps[v.idle_p[i] as int].status == PIDLE);
        }
        assert forall|q: int| 0 <= q < w.ms.len() && (#[trigger] w.ms[q]).p is Some implies w.ps[
        w.ms[q].p->0 as int].status
            == PRUNNING && w.ps[w.ms[q].p->0 as int].m == Some(q as usize) by {
            assert(v.ms[q].p is Some);
            assert(v.ps[v.ms[q].p->0 as int].m == Some(q as usize));
        }
    }
}

/// The other half of a system call: the thread comes back.
pub proof fn coming_out_keeps_ownership(v: RtView, m: usize, g: Option<usize>)
    requires
        v.names(),
        m < v.ms.len(),
        opt_below(g, v.gs.len()),
        v.owned(),
        v.ms[m as int].p is None,
        !v.idle_m.contains(m),
    ensures
        v.came_out(Some(m), g).owned(),
{
    let w = v.came_out(Some(m), g);
    assert(super::sched::m_names(v.ms[m as int], v.gs.len(), v.ps.len()));
    if v.keeps_old(m as int) || v.idle_p.len() > 0 {
        let q = if v.keeps_old(m as int) {
            v.ms[m as int].oldp->0
        } else {
            v.idle_p.last()
        };
        if !v.keeps_old(m as int) {
            assert(q == v.idle_p[v.idle_p.len() - 1]);
            assert(v.ps[q as int].status == PIDLE);
        }
        assert(v.ps[q as int].status != PRUNNING);
        assert forall|i: int| 0 <= i < w.idle_p.len() implies w.ps[(
        #[trigger] w.idle_p[i]) as int].status == PIDLE && w.ps[w.idle_p[i] as int].m is None by {
            assert(w.idle_p[i] == v.idle_p[i]);
            assert(v.ps[v.idle_p[i] as int].status == PIDLE);
            assert(v.idle_p[i] != q);
        }
        assert forall|i: int| 0 <= i < w.idle_m.len() implies w.ms[(
        #[trigger] w.idle_m[i]) as int].p is None by {
            assert(v.idle_m[i] != m) by {
                if v.idle_m[i] == m {
                    assert(v.idle_m.contains(m));
                }
            }
        }
        assert forall|x: int| 0 <= x < w.ms.len() && (#[trigger] w.ms[x]).p is Some implies w.ps[
        w.ms[x].p->0 as int].status
            == PRUNNING && w.ps[w.ms[x].p->0 as int].m == Some(x as usize) by {
            if x != m {
                assert(v.ms[x].p is Some);
                assert(v.ps[v.ms[x].p->0 as int].status == PRUNNING);
            }
        }
    } else {
        assert(w.ps =~= v.ps);
        assert forall|i: int| 0 <= i < w.idle_m.len() implies w.ms[(
        #[trigger] w.idle_m[i]) as int].p is None by {
            if i < v.idle_m.len() {
                assert(w.idle_m[i] == v.idle_m[i]);
            }
        }
        assert forall|x: int| 0 <= x < w.ms.len() && (#[trigger] w.ms[x]).p is Some implies w.ps[
        w.ms[x].p->0 as int].status
            == PRUNNING && w.ps[w.ms[x].p->0 as int].m == Some(x as usize) by {
            assert(v.ms[x].p is Some);
        }
        assert(w.idle_m.no_duplicates());
    }
}

/// Taking a processor from a system call keeps the ownership.
pub proof fn retaking_keeps_ownership(v: RtView, p: int)
    requires
        v.names(),
        0 <= p < v.ps.len(),
        v.owned(),
        v.ps[p].status == PSYSCALL,
    ensures
        v.retaken(p).owned(),
{
    let w = v.retaken(p);
    assert(v.ps.len() <= usize::MAX);
    assert(!v.idle_p.contains(p as usize)) by {
        if v.idle_p.contains(p as usize) {
            let i = v.idle_p.index_of(p as usize);
            assert(v.ps[v.idle_p[i] as int].status == PIDLE);
        }
    }
    assert forall|i: int| 0 <= i < w.idle_p.len() implies w.ps[(
    #[trigger] w.idle_p[i]) as int].status == PIDLE && w.ps[w.idle_p[i] as int].m is None by {
        if i < v.idle_p.len() {
            assert(w.idle_p[i] == v.idle_p[i]);
            assert(v.idle_p.contains(v.idle_p[i]));
        }
    }
    if v.idle_m.len() > 0 {
        let m = v.idle_m.last();
        assert(m == v.idle_m[v.idle_m.len() - 1]);
        assert(v.ms[m as int].p is None);
        assert forall|i: int| 0 <= i < w.idle_m.len() implies w.ms[(
        #[trigger] w.idle_m[i]) as int].p is None by {
            assert(w.idle_m[i] == v.idle_m[i]);
            assert(v.idle_m[i] != m);
        }
        assert(w.idle_p == v.idle_p);
    } else {
        assert(w.idle_p.no_duplicates());
    }
    assert forall|x: int| 0 <= x < w.ms.len() && (#[trigger] w.ms[x]).p is Some implies w.ps[
    w.ms[x].p->0 as int].status
        == PRUNNING && w.ps[w.ms[x].p->0 as int].m == Some(x as usize) by {
        if v.idle_m.len() == 0 || x != v.idle_m.last() {
            assert(v.ms[x].p is Some);
            assert(v.ps[v.ms[x].p->0 as int].status == PRUNNING);
        }
    }
    assert forall|q: int| 0 <= q < w.ps.len() && (#[trigger] w.ps[q]).status == PRUNNING implies w.ps[q].m is Some
        && w.ms[w.ps[q].m->0 as int].p == Some(q as usize) by {
        if q != p {
            assert(v.ps[q].status == PRUNNING);
        }
    }
}

/// A thread goes to sleep only when it has found every queue empty: its own, the
/// global one, and those of all other processors, unless there is no processor
/// with which it could take from them.  So a goroutine that is queued is not
/// left behind by a thread that could run it.
pub proof fn no_thread_sleeps_on_work(v: RtView, m: int)
    requires
        v.names(),
        0 <= m < v.ms.len(),
        !v.may_go_on(m),
    ensures
        v.global.len() == 0,
        v.ms[m].p is Some ==> forall|p: int|
            0 <= p < v.ps.len() ==> (#[trigger] v.ps[p]).size() == 0,
        v.ms[m].p is None && v.idle_p.len() > 0 ==> forall|p: int|
            0 <= p < v.ps.len() ==> (#[trigger] v.ps[p]).size() == 0,
        v.stopped(m).idle_m == v.idle_m.push(m as usize),
        v.stopped(m).ms[m].p is None,
{
    assert(super::sched::m_names(v.ms[m], v.gs.len(), v.ps.len()));
    if v.ms[m].p is Some || v.idle_p.len() > 0 {
        assert forall|p: int| 0 <= p < v.ps.len() implies (#[trigger] v.ps[p]).size() == 0 by {
            if v.ps[p].size() > 0 {
                assert(v.local_work());
            }
        }
    }
}

/// A goroutine that is made ready finds somebody to run it: where a thread and a
/// processor that is wanted are idle, that thread is woken with that processor.
pub proof fn ready_wakes_an_idle_thread(v: RtView, m: Option<usize>, gp: usize)
    requires
        v.names(),
        v.owned(),
        opt_below(m, v.ms.len()),
        gp < v.gs.len(),
        v.gs[gp as int].readiness() == Ready::Readied,
        v.idle_m.len() > 0,
        exists|i: int| 0 <= i < v.idle_p.len() && v.wanted((#[trigger] v.idle_p[i]) as int),
    ensures
        v.spare() is Some,
        ({
            let w = v.readied(m, gp);
            let t = v.idle_m.last();
            let at = v.spare()->0;
            &&& w.ms[t as int].p == Some(v.idle_p[at])
            &&& v.wanted(v.idle_p[at] as int)
            &&& w.ms[t as int].park.flag
            &&& w.idle_m == v.idle_m.drop_last()
            &&& w.idle_p == v.idle_p.remove(at)
        }),
{
    let a = v.with_g(gp as int, G { atomicstatus: GRUNNABLE, ..v.gs[gp as int] });
    lemma_last_wanted(v, v.idle_p.len());
    lemma_same_spare(v, a.enqueued(m, gp), v.idle_p.len());
    assert(v.idle_m.last() == v.idle_m[v.idle_m.len() - 1]);
}

/// Now and then a processor takes from the global queue first, whatever waits on
/// it: so no goroutine there starves.
pub proof fn global_queue_has_its_turn(v: RtView, m: int)
    requires
        0 <= m < v.ms.len(),
        v.ms[m].p is Some,
        v.global.len() > 0,
        v.ps[v.ms[m].p->0 as int].schedtick % GLOBAL_QUEUE_PERIOD == 0,
    ensures
        v.picked(m).0 == Some(v.global[0]),
        v.picked(m).1.global == v.global.skip(1),
{
}

/// A thread that looks for work and finds none leaves everything as it is, and
/// there was nothing: no goroutine on its own processor, on the global queue, or
/// on another processor.
pub proof fn search_fails_only_on_nothing(v: RtView, m: int)
    requires
        v.names(),
        0 <= m < v.ms.len(),
        v.ms[m].p is Some,
        v.picked(m).0 is None,
    ensures
        v.global.len() == 0,
        forall|p: int| 0 <= p < v.ps.len() ==> (#[trigger] v.ps[p]).size() == 0,
{
    let own = v.ms[m].p->0 as int;
    assert(super::sched::m_names(v.ms[m], v.gs.len(), v.ps.len()));
    let start = v.steal_start(m);
    assert forall|p: int| 0 <= p < v.ps.len() implies (#[trigger] v.ps[p]).size() == 0 by {
        if p != own {
            vstd::arithmetic::div_mod::lemma_mod_bound(
                (v.ms[m].id as usize).wrapping_mul(super::sched::STEAL_START_FACTOR) as int,
                v.ps.len() as int,
            );
            let i = if p >= start {
                p - start
            } else {
                p - start + v.ps.len()
            };
            assert(v.victim(start, i) == p) by {
                if p >= start {
                    vstd::arithmetic::div_mod::lemma_small_mod(p as nat, v.ps.len());
                } else {
                    vstd::arithmetic::div_mod::lemma_mod_add_multiples_vanish(
                        p,
                        v.ps.len() as int,
                    );
                    vstd::arithmetic::div_mod::lemma_small_mod(p as nat, v.ps.len());
                }
            }
            lemma_next_victim(v, own, start, 0, false);
            lemma_next_victim(v, own, start, 0, true);
            lemma_passed_over(v, own, start, 0, true, i as nat);
        }
    }
}

proof fn lemma_passed_over(
    v: RtView,
    me: int,
    start: int,
    i: nat,
    steal_run_next: bool,
    k: nat,
)
    requires
        v.next_victim(me, start, i, steal_run_next) >= v.ps.len(),
        i <= k < v.ps.len(),
    ensures
        v.victim(start, k as int) == me || v.ps[v.victim(start, k as int)].loot(
            steal_run_next,
        ).len() == 0,
    decreases v.ps.len() - i,
{
    if i < k {
        lemma_passed_over(v, me, start, i + 1, steal_run_next, k);
    }
}

/// Who holds what depends on the holders' own records alone.
proof fn lemma_same_holders(v: RtView, w: RtView)
    requires
        v.owned(),
        w.ms.len() == v.ms.len(),
        w.ps.len() == v.ps.len(),
        w.idle_p == v.idle_p,
        w.idle_m == v.idle_m,
        all_below(v.idle_p, v.ps.len()),
        all_below(v.idle_m, v.ms.len()),
        forall|m: int| 0 <= m < v.ms.len() ==> (#[trigger] w.ms[m]).p == v.ms[m].p,
        forall|m: int| 0 <= m < v.ms.len() ==> opt_below((#[trigger] v.ms[m]).p, v.ps.len()),
        forall|p: int| 0 <= p < v.ps.len() ==> opt_below((#[trigger] v.ps[p]).m, v.ms.len()),
        forall|p: int|
            0 <= p < v.ps.len() ==> (#[trigger] w.ps[p]).status == v.ps[p].status && w.ps[p].m
                == v.ps[p].m,
    ensures
        w.owned(),
{
    assert forall|m: int| 0 <= m < w.ms.len() && (#[trigger] w.ms[m]).p is Some implies w.ps[
    w.ms[m].p->0 as int].status
        == PRUNNING && w.ps[w.ms[m].p->0 as int].m == Some(m as usize) by {
        assert(v.ms[m].p is Some);
    }
    assert forall|p: int| 0 <= p < w.ps.len() && (#[trigger] w.ps[p]).status == PRUNNING implies w.ps[p].m is Some
        && w.ms[w.ps[p].m->0 as int].p == Some(p as usize) by {
        assert(v.ps[p].status == PRUNNING);
    }
    assert forall|i: int| 0 <= i < w.idle_p.len() implies w.ps[(
    #[trigger] w.idle_p[i]) as int].status == PIDLE && w.ps[w.idle_p[i] as int].m is None by {
        assert(v.ps[v.idle_p[i] as int].status == PIDLE);
    }
}

proof fn lemma_names_bounds(v: RtView)
    requires
        v.names(),
    ensures
        forall|m: int| 0 <= m < v.ms.len() ==> opt_below((#[trigger] v.ms[m]).p, v.ps.len()),
        forall|p: int| 0 <= p < v.ps.len() ==> opt_below((#[trigger] v.ps[p]).m, v.ms.len()),
{
    assert forall|m: int| 0 <= m < v.ms.len() implies opt_below(
        (#[trigger] v.ms[m]).p,
        v.ps.len(),
    ) by {
        assert(super::sched::m_names(v.ms[m], v.gs.len(), v.ps.len()));
    }
    assert forall|p: int| 0 <= p < v.ps.len() implies opt_below(
        (#[trigger] v.ps[p]).m,
        v.ms.len(),
    ) by {
        assert(p_names(v.ps[p], v.gs.len(), v.ms.len()));
    }
}

/// Whether a goroutine begins to run, yields, parks or ends, the ownership is
/// kept.
pub proof fn running_keeps_ownership(v: RtView, m: int, gp: usize)
    requires
        v.names(),
        0 <= m < v.ms.len(),
        gp < v.gs.len(),
        v.owned(),
    ensures
        v.executed(m, gp as int).owned(),
        v.yielded(m, gp as int).owned(),
        v.parked(m, gp as int).owned(),
        v.exited(m, gp as int).owned(),
{
    lemma_names_bounds(v);
    lemma_same_holders(v, v.executed(m, gp as int));
    lemma_same_holders(v, v.yielded(m, gp as int));
    lemma_same_holders(v, v.parked(m, gp as int));
    lemma_same_holders(v, v.exited(m, gp as int));
}

/// A search for work keeps the ownership.
pub proof fn picking_keeps_ownership(v: RtView, m: int)
    requires
        v.names(),
        0 <= m < v.ms.len(),
        v.ms[m].p is Some,
        v.owned(),
    ensures
        v.picked(m).1.owned(),
{
    lemma_names_bounds(v);
    lemma_same_holders(v, v.picked(m).1);
}

/// Starting a goroutine keeps the ownership.
pub proof fn spawning_keeps_ownership(
    v: RtView,
    ctxt: usize,
    entry: Entry,
    fresh: Option<Stack>,
)
    requires
        v.names(),
        v.owned(),
        v.gs.len() < usize::MAX,
    ensures
        v.spawned(ctxt, entry, fresh).owned(),
{
    lemma_names_bounds(v);
    let a = v.with_new_g(ctxt, entry, fresh);
    let b = RtView { allg: a.allg.push(v.next_g()), global: a.global.push(v.next_g()), ..a };
    lemma_same_holders(v, b);
    assert(b.idle_m == v.idle_m && b.idle_p == v.idle_p && b.ms == v.ms && b.ps == v.ps);
    let c = b.started(None);
    lemma_last_wanted(v, v.idle_p.len());
    lemma_same_spare(v, b, v.idle_p.len());
    if v.idle_m.len() > 0 && v.spare() is Some {
        starting_keeps_ownership(v);
        let d = v.started(None);
        lemma_started_bounds(v);
        lemma_same_holders(d, c);
    }
}

proof fn lemma_started_bounds(v: RtView)
    requires
        v.names(),
    ensures
        ({
            let d = v.started(None);
            &&& all_below(d.idle_p, d.ps.len())
            &&& all_below(d.idle_m, d.ms.len())
            &&& forall|m: int|
                0 <= m < d.ms.len() ==> opt_below((#[trigger] d.ms[m]).p, d.ps.len())
            &&& forall|p: int|
                0 <= p < d.ps.len() ==> opt_below((#[trigger] d.ps[p]).m, d.ms.len())
        }),
{
    super::sched::lemma_started_names(v, None);
    lemma_names_bounds(v.started(None));
}

/// Changing the number of processors keeps the ownership: every new processor is
/// held by a thread of its own.
pub proof fn resizing_keeps_ownership(v: RtView, n: int, stacks: Seq<Stack>)
    requires
        v.names(),
        v.owned(),
        v.ms.len() + 256 <= usize::MAX,
        v.ps.len() + 256 <= usize::MAX,
        v.gomaxprocs >= 1,
    ensures
        v.resized(n, stacks).owned(),
{
    let w = v.resized(n, stacks);
    let np = v.ps.len() as int;
    let nm = v.ms.len() as int;
    assert forall|m: int| 0 <= m < w.ms.len() && (#[trigger] w.ms[m]).p is Some implies w.ps[
    w.ms[m].p->0 as int].status == PRUNNING && w.ps[w.ms[m].p->0 as int].m == Some(m as usize) by {
        if m < nm {
            assert(w.ms[m] == v.ms[m]);
            assert(m_names(v.ms[m], v.gs.len(), v.ps.len()));
            assert(w.ps[v.ms[m].p->0 as int] == v.ps[v.ms[m].p->0 as int]);
        }
    }
    assert forall|p: int| 0 <= p < w.ps.len() && (#[trigger] w.ps[p]).status == PRUNNING implies
        w.ps[p].m is Some && w.ms[w.ps[p].m->0 as int].p == Some(p as usize) by {
        if p < np {
            assert(w.ps[p] == v.ps[p]);
            assert(p_names(v.ps[p], v.gs.len(), v.ms.len()));
            assert(w.ms[v.ps[p].m->0 as int] == v.ms[v.ps[p].m->0 as int]);
        }
    }
    assert forall|i: int| 0 <= i < w.idle_p.len() implies w.ps[(#[trigger] w.idle_p[i]) as int].status
        == PIDLE && w.ps[w.idle_p[i] as int].m is None by {
        assert(v.ps[v.idle_p[i] as int].status == PIDLE);
        assert(v.idle_p[i] < v.ps.len());
        assert(w.ps[w.idle_p[i] as int] == v.ps[v.idle_p[i] as int]);
    }
    assert forall|i: int| 0 <= i < w.idle_m.len() implies w.ms[(
    #[trigger] w.idle_m[i]) as int].p is None by {
        assert(v.ms[v.idle_m[i] as int].p is None);
        assert(v.idle_m[i] < v.ms.len());
        assert(w.ms[w.idle_m[i] as int] == v.ms[v.idle_m[i] as int]);
    }
}

/// A scheduler that was just made is in order: nobody is queued, and each thread
/// holds one processor.
pub proof fn fresh_scheduler_is_in_order(
    procs: i32,
    config: Config,
    stacks: Seq<Stack>,
)
    requires
        1 <= procs,
        procs <= stacks.len(),
    ensures
        RtView::blank(procs, config).grown(0, procs as int, stacks).owned(),
        RtView::blank(procs, config).grown(0, procs as int, stacks).all_placed(Set::empty()),
{
    let b = RtView::blank(procs, config);
    let v = b.grown(0, procs as int, stacks);
    scan_flag_hides_nothing(super::g::GIDLE);
    assert forall|g: usize| g < v.gs.len() implies #[trigger] v.placed(g, Set::empty()) by {
        lemma_count_empty(g);
        assert(v.ps =~= b.ps + v.ps);
        lemma_added(b.ps, v.ps, g);
    }
}

} // verus!
