//! What becomes of the values that a `select` wants to send: each is with its
//! case until that case goes through, and then it is gone, whoever else uses the
//! channels meanwhile.

use vstd::prelude::*;

use crate::chan::{
    all_wait, lemma_first_claimable, lemma_wf_sound, released, waits, ChanView, Chans, ChansView,
};
use crate::runtime::g::G;
use crate::runtime::sched::{opt_below, RtView};
use crate::runtime::sudog::{claimable, claimed, first_claimable, Elem, PoolView, Sudog};
use crate::select::{
    cases_ok, enlisted_case, held, is_loser, kept, moved, only_on, poll_order_is_a_permutation,
    poll_order_of, registered, selected, SCase, SelectStep, Tried, TryResult,
};

verus! {

impl PoolView {
    /// Sudog `t` is free.
    pub open spec fn lists(self, t: usize) -> bool {
        ||| self.vacant.contains(t)
        ||| self.central.contains(t)
        ||| exists|p: int| 0 <= p < self.locals.len() && (#[trigger] self.locals[p]).contains(t)
    }

    /// The free sudogs are there.
    pub open spec fn in_range(self) -> bool {
        forall|t: usize| #[trigger] self.lists(t) ==> t < self.nslots
    }
}

/// Taking a batch for a processor makes no sudog free.
proof fn lemma_refilled_lists(a: PoolView, p: int, t: usize)
    requires
        0 <= p < a.locals.len(),
        a.refilled(p).lists(t),
    ensures
        a.lists(t),
{
    let b = a.refilled(p);
    let n = a.central.len() as int;
    let k = if n < 64 {
        n
    } else {
        64
    };
    if a.locals[p].len() == 0 {
        if b.vacant.contains(t) {
        } else if b.central.contains(t) {
            let i = b.central.index_of(t);
            assert(a.central[i] == t);
        } else {
            let q = choose|q: int|
                0 <= q < b.locals.len() && (#[trigger] b.locals[q]).contains(t);
            if q == p {
                let i = b.locals[q].index_of(t);
                assert(b.locals[q] == a.central.skip(n - k).reverse());
                assert(b.locals[q][i] == a.central[n - 1 - i]);
                assert(a.central.contains(t));
            } else {
                assert(a.locals[q] == b.locals[q]);
                assert(a.locals[q].contains(t));
            }
        }
    }
}

/// Handing out a sudog makes none free, and the one that is handed out was free
/// or is new.
proof fn lemma_acquire_lists(a: PoolView, p: Option<usize>)
    requires
        opt_below(p, a.locals.len()),
        a.nslots <= usize::MAX,
    ensures
        a.lists(a.acquired(p)) && a.after_acquire(p).nslots == a.nslots || a.acquired(p)
            == a.nslots as usize && a.after_acquire(p).nslots == a.nslots + 1,
        forall|t: usize| #[trigger] a.after_acquire(p).lists(t) ==> a.lists(t),
        a.after_acquire(p).locals.len() == a.locals.len(),
{
    let b = a.after_acquire(p);
    let s = a.acquired(p);
    if p is Some {
        let r = a.refilled(p->0 as int);
        let local = r.locals[p->0 as int];
        if local.len() > 0 {
            assert(local[local.len() - 1] == s);
            assert(local.contains(s));
            assert(r.lists(s));
            lemma_refilled_lists(a, p->0 as int, s);
        } else if a.vacant.len() > 0 {
            assert(a.vacant[a.vacant.len() - 1] == s);
            assert(a.vacant.contains(s));
        }
        assert forall|t: usize| #[trigger] b.lists(t) implies a.lists(t) by {
            if local.len() > 0 {
                assert(r.lists(t)) by {
                    if b.vacant.contains(t) || b.central.contains(t) {
                    } else {
                        let q = choose|q: int|
                            0 <= q < b.locals.len() && (#[trigger] b.locals[q]).contains(t);
                        let i = b.locals[q].index_of(t);
                        assert(r.locals[q][i] == t);
                        assert(r.locals[q].contains(t));
                    }
                }
                lemma_refilled_lists(a, p->0 as int, t);
            } else {
                lemma_alloc_lists(a, t);
            }
        }
    } else {
        if a.central.len() > 0 {
            assert(a.central[a.central.len() - 1] == s);
            assert(a.central.contains(s));
        } else if a.vacant.len() > 0 {
            assert(a.vacant[a.vacant.len() - 1] == s);
            assert(a.vacant.contains(s));
        }
        assert forall|t: usize| #[trigger] b.lists(t) implies a.lists(t) by {
            if a.central.len() > 0 {
                if b.central.contains(t) {
                    let i = b.central.index_of(t);
                    assert(a.central[i] == t);
                } else if b.vacant.contains(t) {
                } else {
                    let q = choose|q: int|
                        0 <= q < b.locals.len() && (#[trigger] b.locals[q]).contains(t);
                    assert(a.locals[q].contains(t));
                }
            } else {
                lemma_alloc_lists(a, t);
            }
        }
    }
}

/// Handing out a slot that holds no live sudog makes none free.
proof fn lemma_alloc_lists(a: PoolView, t: usize)
    requires
        a.after_alloc().lists(t),
    ensures
        a.lists(t),
{
    let b = a.after_alloc();
    if b.vacant.contains(t) {
        let i = b.vacant.index_of(t);
        assert(a.vacant[i] == t);
    } else if b.central.contains(t) {
    } else {
        let q = choose|q: int| 0 <= q < b.locals.len() && (#[trigger] b.locals[q]).contains(t);
        assert(a.locals[q].contains(t));
    }
}

/// Taking a sudog back makes no other free.
proof fn lemma_release_lists(a: PoolView, p: Option<usize>, s: usize, t: usize)
    requires
        opt_below(p, a.locals.len()),
        a.after_release(p, s).lists(t),
        t != s,
    ensures
        a.lists(t),
{
    let b = a.after_release(p, s);
    if p is Some {
        let local = a.locals[p->0 as int];
        let n = local.len() as int;
        if n >= 128 {
            let batch = local.skip(n - 64).reverse();
            let f = a.flushed(batch);
            if b.vacant.contains(t) || b.central.contains(t) {
                assert(f.lists(t));
                lemma_flushed_lists(a, batch, t);
                if batch.contains(t) {
                    let i = batch.index_of(t);
                    assert(batch[i] == local[n - 1 - i]);
                    assert(local.contains(t));
                }
            } else {
                let q = choose|q: int|
                    0 <= q < b.locals.len() && (#[trigger] b.locals[q]).contains(t);
                let i = b.locals[q].index_of(t);
                assert(a.locals[q][i] == t);
                assert(a.locals[q].contains(t));
            }
        } else if b.vacant.contains(t) || b.central.contains(t) {
        } else {
            let q = choose|q: int| 0 <= q < b.locals.len() && (#[trigger] b.locals[q]).contains(t);
            let i = b.locals[q].index_of(t);
            assert(a.locals[q][i] == t);
            assert(a.locals[q].contains(t));
        }
    } else {
        lemma_flushed_lists(a, seq![s], t);
    }
}

/// Sending a batch away makes no sudog free that was not in it.
proof fn lemma_flushed_lists(a: PoolView, batch: Seq<usize>, t: usize)
    requires
        a.flushed(batch).lists(t),
    ensures
        a.lists(t) || batch.contains(t),
{
    let b = a.flushed(batch);
    if b.vacant.contains(t) {
        let i = b.vacant.index_of(t);
        if i < a.vacant.len() {
            assert(a.vacant[i] == t);
        } else {
            let room = b.central.len() - a.central.len();
            assert(batch[i - a.vacant.len() + room] == t);
        }
    } else if b.central.contains(t) {
        let i = b.central.index_of(t);
        if i < a.central.len() {
            assert(a.central[i] == t);
        } else {
            assert(batch[i - a.central.len()] == t);
        }
    } else {
        let q = choose|q: int| 0 <= q < b.locals.len() && (#[trigger] b.locals[q]).contains(t);
        assert(a.locals[q].contains(t));
    }
}

/// A sudog that is in use is on no list of free ones, and those that are free are
/// there.
proof fn lemma_lists_are_free<V>(s: Chans<V>)
    requires
        s.wf(),
    ensures
        s@.pool.in_range(),
        s@.pool.nslots == s@.sudogs.len(),
        forall|t: usize| #[trigger] s.pool.in_use(t) ==> !s@.pool.lists(t),
{
    let pool = s@.pool;
    assert forall|t: usize| #[trigger] pool.lists(t) implies s.pool.free(t) by {
        if pool.vacant.contains(t) {
            let i = pool.vacant.index_of(t);
            assert(s.pool.vacant@[i] == t);
        } else if pool.central.contains(t) {
            let i = pool.central.index_of(t);
            assert(s.pool.central@[i] == t);
        } else {
            let p = choose|p: int|
                0 <= p < pool.locals.len() && (#[trigger] pool.locals[p]).contains(t);
            let i = pool.locals[p].index_of(t);
            assert(s.pool.locals@[p]@[i] == t);
        }
    }
    assert forall|t: usize| #[trigger] pool.lists(t) implies t < pool.nslots by {
        assert(s.pool.free(t));
    }
}

/// The channels and the goroutines fit each other.
pub open spec fn valid<V>(v: ChansView<V>, gs: Seq<G>) -> bool {
    &&& v.sound()
    &&& v.names(gs.len())
    &&& v.pool.nslots == v.sudogs.len()
    &&& v.sudogs.len() <= usize::MAX
    &&& v.chans.len() <= usize::MAX
    &&& v.pool.in_range()
}

/// Channels that are intact, and whose waiting goroutines exist, are valid.
pub proof fn intact_channels_are_valid<V>(s: Chans<V>, gs: Seq<G>)
    requires
        s.wf(),
        s@.names(gs.len()),
    ensures
        valid(s@, gs),
{
    lemma_wf_sound(s);
    lemma_lists_are_free(s);
    assert(s.pool.slots.len() == s.pool.slots@.len());
}

/// One of the cases has sudog `t`.
pub open spec fn has_sudog<V>(cases: Seq<SCase<V>>, t: usize) -> bool {
    exists|i: int| 0 <= i < cases.len() && (#[trigger] cases[i]).sg == Some(t)
}

/// Sudog `t` is on no queue.
pub open spec fn off<V>(v: ChansView<V>, t: usize) -> bool {
    forall|c: int|
        0 <= c < v.chans.len() ==> !(#[trigger] v.chans[c]).sendq.contains(t)
            && !v.chans[c].recvq.contains(t)
}

/// Sudog `t` is on a queue of channel `c`.
pub open spec fn on<V>(v: ChansView<V>, c: int, t: usize) -> bool {
    v.chans[c].sendq.contains(t) || v.chans[c].recvq.contains(t)
}

/// Goroutine `gp` waits with no other sudogs than those of its cases.
pub open spec fn waits_only_with<V>(v: ChansView<V>, gp: usize, cases: Seq<SCase<V>>) -> bool {
    forall|c: int, t: usize|
        0 <= c < v.chans.len() && #[trigger] on(v, c, t) && v.sudogs[t as int].g == Some(gp)
            ==> has_sudog(cases, t)
}

/// Goroutine `gp` waits nowhere.
pub open spec fn waits_nowhere<V>(v: ChansView<V>, gp: usize) -> bool {
    waits_only_with(v, gp, Seq::empty())
}

/// Goroutine `gp` was told that this of its cases went through.
pub open spec fn won<V>(v: ChansView<V>, gs: Seq<G>, gp: usize, case: SCase<V>) -> bool {
    gs[gp as int].param == case.sg && v.sudogs[case.sg->0 as int].success
}

/// Goroutine `gp` waits with `cases`, which were `sent` before it did.  The values
/// that it wants to send are kept for it: one is gone only where its case won.
pub open spec fn in_custody<V>(
    v: ChansView<V>,
    gs: Seq<G>,
    gp: usize,
    cases: Seq<SCase<V>>,
    sent: Seq<SCase<V>>,
) -> bool {
    let param = gs[gp as int].param;
    &&& gp < gs.len()
    &&& cases.len() == sent.len()
    &&& registered(v, gp, cases)
    &&& waits_only_with(v, gp, cases)
    &&& param is Some ==> gs[gp as int].selectdone != 0 && has_sudog(cases, param->0) && off(
        v,
        param->0,
    )
    &&& forall|i: int|
        0 <= i < cases.len() ==> (#[trigger] cases[i]).chan == sent[i].chan && cases[i].send
            == sent[i].send && !v.pool.lists(cases[i].sg->0)
    &&& forall|i: int|
        0 <= i < cases.len() && (#[trigger] cases[i]).send ==> v.recovered(cases[i]).elem == (
        if won(v, gs, gp, cases[i]) {
            None
        } else {
            sent[i].elem
        })
}

/// The queues of `u` hold nobody who is not on the same queue of `v`.
pub open spec fn fewer_wait<V>(v: ChansView<V>, u: ChansView<V>) -> bool {
    &&& u.chans.len() == v.chans.len()
    &&& forall|c: int, t: usize|
        0 <= c < v.chans.len() && #[trigger] u.chans[c].sendq.contains(t)
            ==> v.chans[c].sendq.contains(t)
    &&& forall|c: int, t: usize|
        0 <= c < v.chans.len() && #[trigger] u.chans[c].recvq.contains(t)
            ==> v.chans[c].recvq.contains(t)
}

/// The sudogs of the cases are as they were, but for value and outcome; and no
/// other has become one of goroutine `gp`.
pub open spec fn same_sudogs<V>(
    v: ChansView<V>,
    u: ChansView<V>,
    gp: usize,
    cases: Seq<SCase<V>>,
) -> bool {
    &&& forall|i: int|
        0 <= i < cases.len() ==> ({
            let t = (#[trigger] cases[i]).sg->0 as int;
            &&& t < u.sudogs.len()
            &&& u.sudogs[t].g == v.sudogs[t].g
            &&& u.sudogs[t].c == v.sudogs[t].c
            &&& u.sudogs[t].is_select == v.sudogs[t].is_select
        })
    &&& forall|t: int|
        0 <= t < u.sudogs.len() && (#[trigger] u.sudogs[t]).g == Some(gp) ==> t < v.sudogs.len()
            && v.sudogs[t].g == Some(gp)
}

/// Where fewer wait, a goroutine is registered with its cases as it was.
proof fn lemma_fewer_wait<V>(v: ChansView<V>, u: ChansView<V>, gp: usize, cases: Seq<SCase<V>>)
    requires
        registered(v, gp, cases),
        waits_only_with(v, gp, cases),
        fewer_wait(v, u),
        same_sudogs(v, u, gp, cases),
        u.sound(),
        u.chans.len() <= usize::MAX,
    ensures
        registered(u, gp, cases),
        waits_only_with(u, gp, cases),
        forall|t: usize| #[trigger] off(v, t) ==> off(u, t),
{
    assert forall|i: int| 0 <= i < cases.len() implies enlisted_case(u, gp, #[trigger] cases[i]) by {
        let x = cases[i];
        assert(enlisted_case(v, gp, x));
        assert forall|k: int| 0 <= k < u.chans.len() implies ((
        #[trigger] u.chans[k]).sendq.contains(x.sg->0) ==> k == x.chan && x.send) && (
        u.chans[k].recvq.contains(x.sg->0) ==> k == x.chan && !x.send) by {
            assert(v.chans[k].sendq.contains(x.sg->0) ==> k == x.chan && x.send);
        }
    }
    assert forall|c: int, t: usize|
        0 <= c < u.chans.len() && #[trigger] on(u, c, t) && u.sudogs[t as int].g == Some(
            gp,
        ) implies has_sudog(cases, t) by {
        lemma_queued_exists(u, c, t);
        assert(on(v, c, t));
    }
    assert forall|t: usize| #[trigger] off(v, t) implies off(u, t) by {
        assert forall|c: int| 0 <= c < u.chans.len() implies !(
        #[trigger] u.chans[c]).sendq.contains(t) && !u.chans[c].recvq.contains(t) by {
            assert(!v.chans[c].sendq.contains(t) && !v.chans[c].recvq.contains(t));
        }
    }
}

/// Whoever is on a queue is there.
proof fn lemma_queued_exists<V>(v: ChansView<V>, c: int, t: usize)
    requires
        v.sound(),
        0 <= c < v.chans.len(),
        c <= usize::MAX,
        on(v, c, t),
    ensures
        t < v.sudogs.len(),
        v.sudogs[t as int].g is Some,
{
    let ch = v.chans[c as usize as int];
    assert(ch.sound());
    if ch.sendq.contains(t) {
        let i = ch.sendq.index_of(t);
        assert(ch.sendq[i] == t);
    } else {
        let i = ch.recvq.index_of(t);
        assert(ch.recvq[i] == t);
    }
}

/// Once goroutine `gp` was told which of its cases won, it is told nothing else,
/// and its sudogs stay as they are.
pub open spec fn settled_stays<V>(
    v: ChansView<V>,
    gs: Seq<G>,
    u: ChansView<V>,
    hs: Seq<G>,
    gp: usize,
    cases: Seq<SCase<V>>,
) -> bool {
    gs[gp as int].param is Some ==> {
        &&& hs[gp as int].param == gs[gp as int].param
        &&& forall|i: int|
            0 <= i < cases.len() ==> u.sudogs[(#[trigger] cases[i]).sg->0 as int]
                == v.sudogs[cases[i].sg->0 as int]
    }
}

/// A receive from channel `c` took the value of a sender that waited: without a
/// buffer it is the value received, else it is the last in the buffer.
pub open spec fn delivered<V>(t: Tried<V>, c: int, val: Option<V>) -> bool {
    let ch = t.v.chans[c];
    &&& val is Some
    &&& ch.cap == 0 ==> t.elem == val
    &&& ch.cap > 0 ==> ch.buf.len() > 0 && ch.buf.last() == val->0
}

/// A try takes somebody off a queue, or nobody.
proof fn lemma_try_fewer<V>(v: ChansView<V>, gs: Seq<G>, x: SCase<V>)
    requires
        x.chan < v.chans.len(),
    ensures
        fewer_wait(v, v.tried(gs, x).v),
{
    let u = v.tried(gs, x).v;
    let a = v.chans[x.chan as int];
    let b = u.chans[x.chan as int];
    let k = v.first_waiter(gs, x.chan as int, !x.send) as int;
    lemma_first_claimable(a.queue(!x.send), v.sudogs, gs, 0);
    assert forall|t: usize| #[trigger] b.sendq.contains(t) implies a.sendq.contains(t) by {
        let i = b.sendq.index_of(t);
        if b.sendq != a.sendq {
            assert(a.sendq[i + k + 1] == t);
        }
    }
    assert forall|t: usize| #[trigger] b.recvq.contains(t) implies a.recvq.contains(t) by {
        let i = b.recvq.index_of(t);
        if b.recvq != a.recvq {
            assert(a.recvq[i + k + 1] == t);
        }
    }
}

/// Whatever another goroutine tries, the values stay in custody; only a receive
/// takes one, and hands it on.
pub proof fn try_keeps_custody<V>(
    v: ChansView<V>,
    gs: Seq<G>,
    gp: usize,
    cases: Seq<SCase<V>>,
    sent: Seq<SCase<V>>,
    x: SCase<V>,
)
    requires
        valid(v, gs),
        in_custody(v, gs, gp, cases, sent),
        x.chan < v.chans.len(),
        valid(v.tried(gs, x).v, v.tried(gs, x).gs),
    ensures
        ({
            let t = v.tried(gs, x);
            &&& in_custody(t.v, t.gs, gp, cases, sent)
            &&& settled_stays(v, gs, t.v, t.gs, gp, cases)
            &&& forall|i: int|
                0 <= i < cases.len() && (#[trigger] cases[i]).send && !won(v, gs, gp, cases[i])
                    && won(t.v, t.gs, gp, cases[i]) ==> !x.send && x.chan == sent[i].chan
                    && delivered(t, x.chan as int, sent[i].elem)
        }),
{
    let t = v.tried(gs, x);
    let u = t.v;
    let c = x.chan as int;
    let q = v.chans[c].queue(!x.send);
    let k = v.first_waiter(gs, c, !x.send) as int;
    assert(v.chans[x.chan as int].sound());
    lemma_first_claimable(q, v.sudogs, gs, 0);
    lemma_try_fewer(v, gs, x);
    if t.res is Handoff {
        let p = q[k];
        assert(q.contains(p));
        assert(on(v, c, p));
        lemma_queued_exists(v, c, p);
        let s = v.sudogs[p as int];
        let other = s.g->0;
        assert(opt_below(v.sudogs[p as int].g, gs.len()));
        assert(same_sudogs(v, u, gp, cases)) by {
            assert forall|i: int| 0 <= i < cases.len() implies (#[trigger] cases[i]).sg->0
                < u.sudogs.len() by {
                assert(enlisted_case(v, gp, cases[i]));
            }
        }
        lemma_fewer_wait(v, u, gp, cases);
        if other == gp {
            assert(has_sudog(cases, p));
            let w = choose|w: int| 0 <= w < cases.len() && (#[trigger] cases[w]).sg == Some(p);
            assert(enlisted_case(v, gp, cases[w]));
            assert(claimable(s, gs));
            assert(gs[gp as int].param is None);
            assert(only_on(v, p, cases[w].chan, cases[w].send));
            assert(c == cases[w].chan && cases[w].send == !x.send) by {
                assert(v.chans[c].sendq.contains(p) ==> c == cases[w].chan && cases[w].send);
            }
            assert(off(u, p)) by {
                assert forall|d: int| 0 <= d < u.chans.len() implies !(
                #[trigger] u.chans[d]).sendq.contains(p) && !u.chans[d].recvq.contains(p) by {
                    assert(v.chans[d].sendq.contains(p) ==> d == c && !x.send);
                    if u.chans[c].queue(!x.send).contains(p) {
                        let i = u.chans[c].queue(!x.send).index_of(p);
                        assert(q[i + k + 1] == p);
                        assert(q.no_duplicates());
                    }
                }
            }
            assert forall|i: int| 0 <= i < cases.len() && (#[trigger] cases[i]).send implies
                u.recovered(cases[i]).elem == (if won(u, t.gs, gp, cases[i]) {
                None
            } else {
                sent[i].elem
            }) by {
                assert(enlisted_case(v, gp, cases[i]));
                assert(!won(v, gs, gp, cases[i]));
                assert(v.recovered(cases[i]).elem == sent[i].elem);
                if i != w {
                    if i < w {
                        assert(cases[i].sg != cases[w].sg);
                    } else {
                        assert(cases[w].sg != cases[i].sg);
                    }
                }
            }
            assert forall|i: int|
                0 <= i < cases.len() && (#[trigger] cases[i]).send && won(
                    u,
                    t.gs,
                    gp,
                    cases[i],
                ) implies !x.send && x.chan == sent[i].chan && delivered(
                t,
                x.chan as int,
                sent[i].elem,
            ) by {
                if i < w {
                    assert(cases[i].sg != cases[w].sg);
                } else if w < i {
                    assert(cases[w].sg != cases[i].sg);
                }
                assert(!won(v, gs, gp, cases[i]));
                assert(v.recovered(cases[i]).elem == sent[i].elem);
                assert(waits(s, x.chan, true));
                let buf = v.chans[c].buf;
                let val = s.elem->0->0;
                assert(q.len() > 0);
                if buf.len() > 0 {
                    assert(buf.push(val).skip(1).last() == val);
                }
            }
        } else {
            assert(t.gs[gp as int] == gs[gp as int]);
            assert forall|i: int| 0 <= i < cases.len() implies u.sudogs[(
            #[trigger] cases[i]).sg->0 as int] == v.sudogs[cases[i].sg->0 as int] by {
                assert(enlisted_case(v, gp, cases[i]));
            }
        }
    } else {
        assert(u.sudogs == v.sudogs && t.gs == gs);
        assert(same_sudogs(v, u, gp, cases)) by {
            assert forall|i: int| 0 <= i < cases.len() implies (#[trigger] cases[i]).sg->0
                < u.sudogs.len() by {
                assert(enlisted_case(v, gp, cases[i]));
            }
        }
        lemma_fewer_wait(v, u, gp, cases);
    }
}

/// Setting one side of a channel free takes no value: only goroutines are told,
/// and told that nothing went through.
proof fn lemma_released_custody<V>(
    q: Seq<usize>,
    sudogs: Seq<Sudog<V>>,
    gs: Seq<G>,
    gp: usize,
    cases: Seq<SCase<V>>,
)
    requires
        gp < gs.len(),
        q.no_duplicates(),
        forall|j: int|
            0 <= j < q.len() ==> (#[trigger] q[j]) < sudogs.len() && sudogs[q[j] as int].g is Some
                && sudogs[q[j] as int].g->0 < gs.len(),
        forall|j: int|
            0 <= j < q.len() && sudogs[(#[trigger] q[j]) as int].g == Some(gp) ==> has_sudog(
                cases,
                q[j],
            ),
        forall|i: int|
            0 <= i < cases.len() ==> (#[trigger] cases[i]).sg is Some && cases[i].sg->0
                < sudogs.len() && sudogs[cases[i].sg->0 as int].g == Some(gp)
                && sudogs[cases[i].sg->0 as int].is_select,
        gs[gp as int].param is Some ==> gs[gp as int].selectdone != 0,
    ensures
        ({
            let r = released(q, sudogs, gs);
            let param = r.gs[gp as int].param;
            &&& r.sudogs.len() == sudogs.len()
            &&& r.gs.len() == gs.len()
            &&& forall|t: int|
                0 <= t < sudogs.len() ==> #[trigger] r.sudogs[t] == (Sudog {
                    success: r.sudogs[t].success,
                    ..sudogs[t]
                })
            &&& param is Some ==> r.gs[gp as int].selectdone != 0
            &&& gs[gp as int].param is Some ==> param == gs[gp as int].param && forall|i: int|
                0 <= i < cases.len() ==> r.sudogs[(#[trigger] cases[i]).sg->0 as int]
                    == sudogs[cases[i].sg->0 as int]
            &&& gs[gp as int].param is None && param is Some ==> has_sudog(cases, param->0)
                && q.contains(param->0) && !r.sudogs[param->0 as int].success
        }),
    decreases q.len(),
{
    let k = first_claimable(q, sudogs, gs, 0);
    lemma_first_claimable(q, sudogs, gs, 0);
    if q.len() > 0 && k < q.len() {
        let sg = q[k as int];
        let s = sudogs[sg as int];
        let g = s.g->0 as int;
        let h = claimed(s, gs);
        let rest = q.skip(k as int + 1);
        let sudogs2 = sudogs.update(sg as int, Sudog { success: false, ..s });
        let gs2 = h.update(g, G { param: Some(sg), ..h[g] });
        assert forall|j: int| 0 <= j < rest.len() implies (#[trigger] rest[j]) < sudogs2.len()
            && sudogs2[rest[j] as int].g == sudogs[rest[j] as int].g && sudogs2[rest[j] as int].g is Some
            && sudogs2[rest[j] as int].g->0 < gs2.len() && rest[j] != sg && q.contains(rest[j]) by {
            assert(rest[j] == q[j + k + 1]);
        }
        assert forall|j: int|
            0 <= j < rest.len() && sudogs2[(#[trigger] rest[j]) as int].g == Some(
                gp,
            ) implies has_sudog(cases, rest[j]) by {
            assert(rest[j] == q[j + k + 1]);
        }
        if g == gp {
            assert(has_sudog(cases, sg));
            assert(gs[gp as int].param is None);
        }
        lemma_released_custody(rest, sudogs2, gs2, gp, cases);
        let r = released(rest, sudogs2, gs2);
        assert forall|t: int| 0 <= t < sudogs.len() implies #[trigger] r.sudogs[t] == (Sudog {
            success: r.sudogs[t].success,
            ..sudogs[t]
        }) by {}
        if gs[gp as int].param is Some {
            assert forall|i: int| 0 <= i < cases.len() implies r.sudogs[(
            #[trigger] cases[i]).sg->0 as int] == sudogs[cases[i].sg->0 as int] by {}
        }
        if g == gp {
            assert(q.contains(sg));
            let w = choose|w: int| 0 <= w < cases.len() && (#[trigger] cases[w]).sg == Some(sg);
            assert(r.sudogs[cases[w].sg->0 as int] == sudogs2[sg as int]);
        }
    }
}

/// Setting one side of channel `c` free leaves the values in custody.
proof fn lemma_set_free_custody<V>(
    v: ChansView<V>,
    gs: Seq<G>,
    gp: usize,
    cases: Seq<SCase<V>>,
    sent: Seq<SCase<V>>,
    c: int,
    sends: bool,
)
    requires
        in_custody(v, gs, gp, cases, sent),
        v.names(gs.len()),
        0 <= c < v.chans.len(),
        forall|d: int, t: usize|
            0 <= d < v.chans.len() && #[trigger] on(v, d, t) ==> t < v.sudogs.len()
                && v.sudogs[t as int].g is Some,
        v.chans[c].queue(sends).no_duplicates(),
    ensures
        ({
            let (u, hs, _) = v.set_free(gs, c, sends);
            &&& in_custody(u, hs, gp, cases, sent)
            &&& settled_stays(v, gs, u, hs, gp, cases)
            &&& u.names(hs.len())
            &&& u.chans.len() == v.chans.len()
            &&& u.chans[c].queue(!sends) == v.chans[c].queue(!sends)
            &&& forall|d: int, t: usize|
                0 <= d < u.chans.len() && #[trigger] on(u, d, t) ==> t < u.sudogs.len()
                    && u.sudogs[t as int].g is Some
            &&& forall|i: int|
                0 <= i < cases.len() ==> u.recovered(#[trigger] cases[i]).elem == v.recovered(
                    cases[i],
                ).elem && (won(u, hs, gp, cases[i]) ==> won(v, gs, gp, cases[i]))
        }),
{
    let (u, hs, _) = v.set_free(gs, c, sends);
    let q = v.chans[c].queue(sends);
    assert forall|j: int| 0 <= j < q.len() implies on(v, c, #[trigger] q[j]) by {
        assert(q.contains(q[j]));
    }
    assert forall|j: int| 0 <= j < q.len() implies (#[trigger] q[j]) < v.sudogs.len()
        && v.sudogs[q[j] as int].g is Some && v.sudogs[q[j] as int].g->0 < gs.len() by {
        assert(on(v, c, q[j]));
        assert(opt_below(v.sudogs[q[j] as int].g, gs.len()));
    }
    assert forall|i: int| 0 <= i < cases.len() implies (#[trigger] cases[i]).sg is Some
        && cases[i].sg->0 < v.sudogs.len() && v.sudogs[cases[i].sg->0 as int].g == Some(gp)
        && v.sudogs[cases[i].sg->0 as int].is_select by {
        assert(enlisted_case(v, gp, cases[i]));
    }
    lemma_released_custody(q, v.sudogs, gs, gp, cases);
    assert forall|d: int, t: usize| 0 <= d < v.chans.len() && #[trigger] on(u, d, t) implies on(
        v,
        d,
        t,
    ) && t < u.sudogs.len() && u.sudogs[t as int].g is Some by {
        assert(on(v, d, t));
        assert(u.sudogs[t as int].g == v.sudogs[t as int].g);
    }
    assert forall|i: int| 0 <= i < cases.len() implies enlisted_case(u, gp, #[trigger] cases[i]) by {
        let x = cases[i];
        assert(enlisted_case(v, gp, x));
        assert(u.sudogs[x.sg->0 as int].g == v.sudogs[x.sg->0 as int].g);
        assert forall|k: int| 0 <= k < u.chans.len() implies ((
        #[trigger] u.chans[k]).sendq.contains(x.sg->0) ==> k == x.chan && x.send) && (
        u.chans[k].recvq.contains(x.sg->0) ==> k == x.chan && !x.send) by {
            assert(v.chans[k].sendq.contains(x.sg->0) ==> k == x.chan && x.send);
        }
    }
    assert forall|d: int, t: usize|
        0 <= d < u.chans.len() && #[trigger] on(u, d, t) && u.sudogs[t as int].g == Some(
            gp,
        ) implies has_sudog(cases, t) by {
        assert(on(v, d, t));
        assert(u.sudogs[t as int].g == v.sudogs[t as int].g);
    }
    let param = hs[gp as int].param;
    if param is Some {
        assert(off(u, param->0)) by {
            assert forall|d: int| 0 <= d < u.chans.len() implies !(
            #[trigger] u.chans[d]).sendq.contains(param->0) && !u.chans[d].recvq.contains(
                param->0,
            ) by {
                if gs[gp as int].param is Some {
                    assert(!v.chans[d].sendq.contains(param->0));
                } else {
                    let w = choose|w: int|
                        0 <= w < cases.len() && (#[trigger] cases[w]).sg == Some(param->0);
                    assert(enlisted_case(v, gp, cases[w]));
                    assert(only_on(v, param->0, cases[w].chan, cases[w].send));
                    assert(v.chans[c].queue(sends).contains(param->0));
                    assert(v.chans[d].sendq.contains(param->0) ==> d == cases[w].chan
                        && cases[w].send);
                    assert(v.chans[c].sendq.contains(param->0) ==> c == cases[w].chan
                        && cases[w].send);
                }
            }
        }
    }
    assert forall|i: int| 0 <= i < cases.len() implies u.recovered(#[trigger] cases[i]).elem
        == v.recovered(cases[i]).elem && (won(u, hs, gp, cases[i]) ==> won(v, gs, gp, cases[i]))
        && (won(v, gs, gp, cases[i]) ==> won(u, hs, gp, cases[i])) by {
        assert(enlisted_case(v, gp, cases[i]));
        let t = cases[i].sg->0 as int;
        assert(u.sudogs[t] == (Sudog { success: u.sudogs[t].success, ..v.sudogs[t] }));
    }
    assert forall|t: int| 0 <= t < u.sudogs.len() implies opt_below(
        (#[trigger] u.sudogs[t]).g,
        hs.len(),
    ) by {
        assert(opt_below(v.sudogs[t].g, gs.len()));
        assert(u.sudogs[t].g == v.sudogs[t].g);
    }
}

/// Closing a channel leaves the values in custody: whoever waited to send on it
/// still has its value.
pub proof fn close_keeps_custody<V>(
    v: ChansView<V>,
    gs: Seq<G>,
    gp: usize,
    cases: Seq<SCase<V>>,
    sent: Seq<SCase<V>>,
    c: usize,
)
    requires
        valid(v, gs),
        in_custody(v, gs, gp, cases, sent),
        c < v.chans.len(),
    ensures
        ({
            let (u, hs, _) = v.after_close(gs, c as int);
            &&& in_custody(u, hs, gp, cases, sent)
            &&& settled_stays(v, gs, u, hs, gp, cases)
            &&& forall|i: int|
                0 <= i < cases.len() && won(u, hs, gp, #[trigger] cases[i]) ==> won(
                    v,
                    gs,
                    gp,
                    cases[i],
                )
        }),
{
    let ch = v.chans[c as int];
    assert(ch.sound());
    if !ch.closed {
        let a = v.with_chan(c as int, ChanView { closed: true, ..ch });
        assert forall|d: int, t: usize| 0 <= d < v.chans.len() && #[trigger] on(a, d, t) implies on(
            v,
            d,
            t,
        ) && t < a.sudogs.len() && a.sudogs[t as int].g is Some by {
            assert(on(v, d, t));
            lemma_queued_exists(v, d, t);
        }
        assert(in_custody(a, gs, gp, cases, sent)) by {
            assert forall|i: int| 0 <= i < cases.len() implies enlisted_case(
                a,
                gp,
                #[trigger] cases[i],
            ) by {
                let x = cases[i];
                assert(enlisted_case(v, gp, x));
                assert forall|k: int| 0 <= k < a.chans.len() implies ((
                #[trigger] a.chans[k]).sendq.contains(x.sg->0) ==> k == x.chan && x.send) && (
                a.chans[k].recvq.contains(x.sg->0) ==> k == x.chan && !x.send) by {
                    assert(v.chans[k].sendq.contains(x.sg->0) ==> k == x.chan && x.send);
                }
            }
            assert forall|d: int, t: usize|
                0 <= d < a.chans.len() && #[trigger] on(a, d, t) && a.sudogs[t as int].g == Some(
                    gp,
                ) implies has_sudog(cases, t) by {
                assert(on(v, d, t));
            }
            let param = gs[gp as int].param;
            if param is Some {
                assert forall|d: int| 0 <= d < a.chans.len() implies !(
                #[trigger] a.chans[d]).sendq.contains(param->0) && !a.chans[d].recvq.contains(
                    param->0,
                ) by {
                    assert(!v.chans[d].sendq.contains(param->0));
                }
            }
            assert forall|i: int| 0 <= i < cases.len() && (#[trigger] cases[i]).send implies
                a.recovered(cases[i]).elem == (if won(a, gs, gp, cases[i]) {
                None
            } else {
                sent[i].elem
            }) by {
                assert(a.recovered(cases[i]) == v.recovered(cases[i]));
            }
        }
        assert(ch.queue(true).no_duplicates() && ch.queue(false).no_duplicates());
        lemma_set_free_custody(a, gs, gp, cases, sent, c as int, false);
        let (b, hs, _) = a.set_free(gs, c as int, false);
        lemma_set_free_custody(b, hs, gp, cases, sent, c as int, true);
    }
}

/// Another goroutine that begins to wait gets a sudog of its own, and leaves the
/// values in custody.
pub proof fn enlisting_keeps_custody<V>(
    v: ChansView<V>,
    gs: Seq<G>,
    gp: usize,
    cases: Seq<SCase<V>>,
    sent: Seq<SCase<V>>,
    by: usize,
    x: SCase<V>,
    p: Option<usize>,
)
    requires
        valid(v, gs),
        in_custody(v, gs, gp, cases, sent),
        by != gp,
        x.chan < v.chans.len(),
        opt_below(p, v.pool.locals.len()),
    ensures
        ({
            let u = v.after_enqueue(x.chan, x.send, p, by, x.elem);
            &&& in_custody(u, gs, gp, cases, sent)
            &&& forall|i: int|
                0 <= i < cases.len() ==> u.sudogs[(#[trigger] cases[i]).sg->0 as int]
                    == v.sudogs[cases[i].sg->0 as int]
        }),
{
    let u = v.after_enqueue(x.chan, x.send, p, by, x.elem);
    let new = v.pool.acquired(p);
    lemma_acquire_lists(v.pool, p);
    assert(new <= v.sudogs.len());
    assert(u.sudogs[new as int].g == Some(by));
    assert forall|i: int| 0 <= i < cases.len() implies (#[trigger] cases[i]).sg != Some(new)
        && u.sudogs[cases[i].sg->0 as int] == v.sudogs[cases[i].sg->0 as int] by {
        assert(enlisted_case(v, gp, cases[i]));
    }
    assert forall|c: int, t: usize|
        0 <= c < v.chans.len() && t != new && #[trigger] on(u, c, t) implies on(v, c, t) by {
        if u.chans[c].sendq.contains(t) {
            let i = u.chans[c].sendq.index_of(t);
            assert(v.chans[c].sendq[i] == t);
        } else {
            let i = u.chans[c].recvq.index_of(t);
            assert(v.chans[c].recvq[i] == t);
        }
    }
    assert forall|i: int| 0 <= i < cases.len() implies enlisted_case(u, gp, #[trigger] cases[i]) by {
        let y = cases[i];
        let t = y.sg->0;
        assert(enlisted_case(v, gp, y));
        assert forall|k: int| 0 <= k < u.chans.len() implies ((
        #[trigger] u.chans[k]).sendq.contains(t) ==> k == y.chan && y.send) && (
        u.chans[k].recvq.contains(t) ==> k == y.chan && !y.send) by {
            assert(v.chans[k].sendq.contains(t) ==> k == y.chan && y.send);
            if u.chans[k].sendq.contains(t) {
                let j = u.chans[k].sendq.index_of(t);
                assert(v.chans[k].sendq[j] == t);
            }
            if u.chans[k].recvq.contains(t) {
                let j = u.chans[k].recvq.index_of(t);
                assert(v.chans[k].recvq[j] == t);
            }
        }
    }
    assert forall|c: int, t: usize|
        0 <= c < u.chans.len() && #[trigger] on(u, c, t) && u.sudogs[t as int].g == Some(
            gp,
        ) implies has_sudog(cases, t) by {
        if t != new {
            assert(on(v, c, t));
            lemma_queued_exists(v, c, t);
        }
    }
    let param = gs[gp as int].param;
    if param is Some {
        assert(off(u, param->0)) by {
            assert(param->0 != new) by {
                let w = choose|w: int|
                    0 <= w < cases.len() && (#[trigger] cases[w]).sg == Some(param->0);
                assert(cases[w].sg != Some(new));
            }
            assert forall|d: int| 0 <= d < u.chans.len() implies !(
            #[trigger] u.chans[d]).sendq.contains(param->0) && !u.chans[d].recvq.contains(
                param->0,
            ) by {
                assert(!v.chans[d].sendq.contains(param->0));
                if on(u, d, param->0) {
                    assert(on(v, d, param->0));
                }
            }
        }
    }
    assert forall|i: int| 0 <= i < cases.len() && (#[trigger] cases[i]).send implies u.recovered(
        cases[i],
    ).elem == (if won(u, gs, gp, cases[i]) {
        None
    } else {
        sent[i].elem
    }) by {
        assert(u.recovered(cases[i]) == v.recovered(cases[i]));
    }
}

/// Giving sudogs back changes those alone.
proof fn lemma_given_back<V>(v: ChansView<V>, cases: Seq<SCase<V>>, p: Option<usize>, n: nat)
    requires
        n <= cases.len(),
        opt_below(p, v.pool.locals.len()),
        forall|i: int|
            0 <= i < cases.len() ==> (#[trigger] cases[i]).sg is Some && cases[i].sg->0
                < v.sudogs.len(),
    ensures
        ({
            let u = v.given_back(cases, p, n);
            &&& u.chans == v.chans
            &&& u.sudogs.len() == v.sudogs.len()
            &&& u.pool.locals.len() == v.pool.locals.len()
            &&& forall|t: usize|
                t < v.sudogs.len() && !has_sudog(cases.take(n as int), t)
                    ==> #[trigger] u.sudogs[t as int] == v.sudogs[t as int] && (u.pool.lists(t)
                    ==> v.pool.lists(t))
            &&& forall|i: int| 0 <= i < n ==> u.sudogs[(#[trigger] cases[i]).sg->0 as int].g is None
        }),
    decreases n,
{
    if n > 0 {
        let m = (n - 1) as nat;
        lemma_given_back(v, cases, p, m);
        let w = v.given_back(cases, p, m);
        let u = v.given_back(cases, p, n);
        let sg = cases[n - 1].sg->0;
        assert forall|t: usize|
            t < v.sudogs.len() && !has_sudog(
                cases.take(n as int),
                t,
            ) implies #[trigger] u.sudogs[t as int] == v.sudogs[t as int] && (u.pool.lists(t)
            ==> v.pool.lists(t)) by {
            assert(cases.take(n as int)[n - 1].sg == Some(sg));
            assert(t != sg);
            if has_sudog(cases.take(m as int), t) {
                let i = choose|i: int|
                    0 <= i < m && (#[trigger] cases.take(m as int)[i]).sg == Some(t);
                assert(cases.take(n as int)[i].sg == Some(t));
            }
            assert(w.sudogs[t as int] == v.sudogs[t as int]);
            if u.pool.lists(t) {
                lemma_release_lists(w.pool, p, sg, t);
            }
        }
        assert forall|i: int| 0 <= i < n implies u.sudogs[(#[trigger] cases[i]).sg->0 as int].g is None by {
            if cases[i].sg->0 != sg {
                assert(w.sudogs[cases[i].sg->0 as int].g is None);
            }
        }
    }
}

/// The end of a wait takes sudogs off the queues, and puts none on.
proof fn lemma_unqueued_fewer<V>(v: ChansView<V>, cases: Seq<SCase<V>>, w: int, n: int)
    ensures
        fewer_wait(v, v.unqueued(cases, w, n)),
{
    let u = v.unqueued(cases, w, n);
    assert forall|c: int, t: usize|
        0 <= c < v.chans.len() && #[trigger] u.chans[c].sendq.contains(
            t,
        ) implies v.chans[c].sendq.contains(t) by {
        lemma_kept_contains(v.chans[c].sendq, cases, w, n, t);
    }
    assert forall|c: int, t: usize|
        0 <= c < v.chans.len() && #[trigger] u.chans[c].recvq.contains(
            t,
        ) implies v.chans[c].recvq.contains(t) by {
        lemma_kept_contains(v.chans[c].recvq, cases, w, n, t);
    }
}

/// Whoever is left on a queue was on it, and has not lost.
proof fn lemma_kept_contains<V>(q: Seq<usize>, cases: Seq<SCase<V>>, w: int, n: int, t: usize)
    requires
        kept(q, cases, w, n).contains(t),
    ensures
        q.contains(t),
        !is_loser(cases, w, n, t),
{
    lemma_filter_contains(q, |t: usize| !is_loser(cases, w, n, t), t);
}

/// What is left of a row after some were taken out was in it.
proof fn lemma_filter_contains(q: Seq<usize>, f: spec_fn(usize) -> bool, t: usize)
    requires
        q.filter(f).contains(t),
    ensures
        q.contains(t),
        f(t),
    decreases q.len(),
{
    reveal(Seq::filter);
    if q.len() > 0 {
        let r = q.drop_last();
        let i = q.filter(f).index_of(t);
        assert(q.filter(f)[i] == t);
        if f(q.last()) && i == r.filter(f).len() {
            assert(q[q.len() - 1] == t);
        } else {
            assert(r.filter(f)[i] == t);
            assert(r.filter(f).contains(t));
            lemma_filter_contains(r, f, t);
            let j = r.index_of(t);
            assert(q[j] == t);
        }
    }
}

/// The end of another goroutine's wait leaves the values in custody.
pub proof fn finishing_keeps_custody<V>(
    v: ChansView<V>,
    gs: Seq<G>,
    gp: usize,
    cases: Seq<SCase<V>>,
    sent: Seq<SCase<V>>,
    by: usize,
    others: Seq<SCase<V>>,
    w: int,
    p: Option<usize>,
)
    requires
        valid(v, gs),
        in_custody(v, gs, gp, cases, sent),
        by != gp,
        registered(v, by, others),
        opt_below(p, v.pool.locals.len()),
        v.unqueued(others, w, others.len() as int).given_back(others, p, others.len()).sound(),
    ensures
        ({
            let u = v.unqueued(others, w, others.len() as int).given_back(others, p, others.len());
            &&& in_custody(u, gs, gp, cases, sent)
            &&& forall|i: int|
                0 <= i < cases.len() ==> u.sudogs[(#[trigger] cases[i]).sg->0 as int]
                    == v.sudogs[cases[i].sg->0 as int]
        }),
{
    let a = v.unqueued(others, w, others.len() as int);
    let u = a.given_back(others, p, others.len());
    lemma_unqueued_fewer(v, others, w, others.len() as int);
    assert forall|i: int| 0 <= i < others.len() implies (#[trigger] others[i]).sg is Some
        && others[i].sg->0 < a.sudogs.len() by {
        assert(enlisted_case(v, by, others[i]));
    }
    lemma_given_back(a, others, p, others.len());
    assert(others.take(others.len() as int) =~= others);
    assert forall|i: int| 0 <= i < cases.len() implies u.sudogs[(#[trigger] cases[i]).sg->0 as int]
        == v.sudogs[cases[i].sg->0 as int] && !u.pool.lists(cases[i].sg->0) && cases[i].sg->0
        < u.sudogs.len() by {
        let t = cases[i].sg->0;
        assert(enlisted_case(v, gp, cases[i]));
        if has_sudog(others, t) {
            let j = choose|j: int| 0 <= j < others.len() && (#[trigger] others[j]).sg == Some(t);
            assert(enlisted_case(v, by, others[j]));
        }
        assert(u.sudogs[t as int] == a.sudogs[t as int]);
    }
    assert(same_sudogs(v, u, gp, cases)) by {
        assert forall|t: int|
            0 <= t < u.sudogs.len() && (#[trigger] u.sudogs[t]).g == Some(gp) implies t
            < v.sudogs.len() && v.sudogs[t].g == Some(gp) by {
            if has_sudog(others, t as usize) {
                let j = choose|j: int|
                    0 <= j < others.len() && (#[trigger] others[j]).sg == Some(t as usize);
                assert(u.sudogs[others[j].sg->0 as int].g is None);
            }
            assert(u.sudogs[t as usize as int] == a.sudogs[t as usize as int]);
        }
    }
    lemma_fewer_wait(v, u, gp, cases);
    assert forall|i: int| 0 <= i < cases.len() && (#[trigger] cases[i]).send implies u.recovered(
        cases[i],
    ).elem == (if won(u, gs, gp, cases[i]) {
        None
    } else {
        sent[i].elem
    }) by {
        assert(u.recovered(cases[i]) == v.recovered(cases[i]));
    }
}

/// What the rest of a program does to the channels and the goroutines.
pub enum Op<V> {
    /// Somebody tries a channel operation.
    Try(SCase<V>),
    /// A channel is closed.
    Close(usize),
    /// A channel is made, whose buffer takes so many values.
    Make(usize),
    /// One more processor gets a list of free sudogs.
    AddLocal,
    /// A goroutine that runs on a processor begins to wait with one case.
    Enlist { by: usize, case: SCase<V>, p: Option<usize> },
    /// The wait of a goroutine ends, which had these cases, of which one won.
    Finish { by: usize, cases: Seq<SCase<V>>, w: int, p: Option<usize> },
    /// The scheduler leaves the goroutines like this.
    Schedule(Seq<G>),
}

impl<V> Op<V> {
    /// The operation can happen while goroutine `gp` waits: nobody else waits in
    /// its name, ends its wait, or changes what it was told.
    pub open spec fn allowed(self, v: ChansView<V>, gs: Seq<G>, gp: usize) -> bool {
        match self {
            Op::Try(x) => x.chan < v.chans.len(),
            Op::Close(c) => c < v.chans.len(),
            Op::Make(_) => true,
            Op::AddLocal => true,
            Op::Enlist { by, case, p } => by != gp && case.chan < v.chans.len() && opt_below(
                p,
                v.pool.locals.len(),
            ),
            Op::Finish { by, cases, w, p } => by != gp && registered(v, by, cases) && opt_below(
                p,
                v.pool.locals.len(),
            ),
            Op::Schedule(hs) => gs.len() <= hs.len() && hs[gp as int].param == gs[gp as int].param
                && hs[gp as int].selectdone == gs[gp as int].selectdone,
        }
    }

    /// The state after the operation.
    pub open spec fn after(self, v: ChansView<V>, gs: Seq<G>) -> (ChansView<V>, Seq<G>) {
        match self {
            Op::Try(x) => (v.tried(gs, x).v, v.tried(gs, x).gs),
            Op::Close(c) => {
                let (u, hs, _) = v.after_close(gs, c as int);
                (u, hs)
            },
            Op::Make(cap) => (ChansView { chans: v.chans.push(ChanView::fresh(cap)), ..v }, gs),
            Op::AddLocal => (
                ChansView {
                    pool: PoolView { locals: v.pool.locals.push(Seq::empty()), ..v.pool },
                    ..v
                },
                gs,
            ),
            Op::Enlist { by, case, p } => (
                v.after_enqueue(case.chan, case.send, p, by, case.elem),
                gs,
            ),
            Op::Finish { by, cases, w, p } => (
                v.unqueued(cases, w, cases.len() as int).given_back(cases, p, cases.len()),
                gs,
            ),
            Op::Schedule(hs) => (v, hs),
        }
    }

    /// The operation is the receive that takes the value `val` from a goroutine
    /// that waits to send it on channel `c`.
    pub open spec fn takes(self, v: ChansView<V>, gs: Seq<G>, c: usize, val: Option<V>) -> bool {
        match self {
            Op::Try(x) => !x.send && x.chan == c && delivered(v.tried(gs, x), c as int, val),
            _ => false,
        }
    }
}

/// Whatever happens while goroutine `gp` waits, the values that it wants to send
/// are in custody before and after.
pub proof fn every_step_keeps_custody<V>(
    v: ChansView<V>,
    gs: Seq<G>,
    gp: usize,
    cases: Seq<SCase<V>>,
    sent: Seq<SCase<V>>,
    op: Op<V>,
)
    requires
        valid(v, gs),
        in_custody(v, gs, gp, cases, sent),
        op.allowed(v, gs, gp),
        valid(op.after(v, gs).0, op.after(v, gs).1),
    ensures
        in_custody(op.after(v, gs).0, op.after(v, gs).1, gp, cases, sent),
        settled_stays(v, gs, op.after(v, gs).0, op.after(v, gs).1, gp, cases),
        forall|i: int|
            0 <= i < cases.len() && (#[trigger] cases[i]).send && !won(v, gs, gp, cases[i]) && won(
                op.after(v, gs).0,
                op.after(v, gs).1,
                gp,
                cases[i],
            ) ==> op.takes(v, gs, sent[i].chan, sent[i].elem),
{
    let (u, hs) = op.after(v, gs);
    match op {
        Op::Try(x) => {
            try_keeps_custody(v, gs, gp, cases, sent, x);
        },
        Op::Close(c) => {
            close_keeps_custody(v, gs, gp, cases, sent, c);
        },
        Op::Enlist { by, case, p } => {
            enlisting_keeps_custody(v, gs, gp, cases, sent, by, case, p);
        },
        Op::Finish { by, cases: others, w, p } => {
            finishing_keeps_custody(v, gs, gp, cases, sent, by, others, w, p);
        },
        Op::Make(cap) => {
            assert forall|i: int| 0 <= i < cases.len() implies enlisted_case(
                u,
                gp,
                #[trigger] cases[i],
            ) by {
                let x = cases[i];
                assert(enlisted_case(v, gp, x));
                assert forall|k: int| 0 <= k < u.chans.len() implies ((
                #[trigger] u.chans[k]).sendq.contains(x.sg->0) ==> k == x.chan && x.send) && (
                u.chans[k].recvq.contains(x.sg->0) ==> k == x.chan && !x.send) by {
                    if k < v.chans.len() {
                        assert(v.chans[k].sendq.contains(x.sg->0) ==> k == x.chan && x.send);
                    }
                }
            }
            assert forall|c: int, t: usize| 0 <= c < u.chans.len() && #[trigger] on(u, c, t) implies c
                < v.chans.len() && on(v, c, t) by {}
            let param = gs[gp as int].param;
            if param is Some {
                assert forall|d: int| 0 <= d < u.chans.len() implies !(
                #[trigger] u.chans[d]).sendq.contains(param->0) && !u.chans[d].recvq.contains(
                    param->0,
                ) by {
                    if d < v.chans.len() {
                        assert(!v.chans[d].sendq.contains(param->0));
                    }
                }
            }
            lemma_same_sudogs_custody(v, gs, u, hs, gp, cases, sent);
        },
        Op::AddLocal => {
            assert forall|t: usize| #[trigger] u.pool.lists(t) implies v.pool.lists(t) by {
                if u.pool.vacant.contains(t) || u.pool.central.contains(t) {
                } else {
                    let q = choose|q: int|
                        0 <= q < u.pool.locals.len() && (#[trigger] u.pool.locals[q]).contains(t);
                    assert(v.pool.locals[q].contains(t));
                }
            }
            assert forall|c: int, t: usize| 0 <= c < u.chans.len() && #[trigger] on(u, c, t) implies c
                < v.chans.len() && on(v, c, t) by {}
            assert forall|i: int| 0 <= i < cases.len() implies enlisted_case(
                u,
                gp,
                #[trigger] cases[i],
            ) by {
                assert(enlisted_case(v, gp, cases[i]));
                assert(only_on(u, cases[i].sg->0, cases[i].chan, cases[i].send));
            }
            let param = gs[gp as int].param;
            if param is Some {
                assert(off(u, param->0));
            }
            lemma_same_sudogs_custody(v, gs, u, hs, gp, cases, sent);
        },
        Op::Schedule(_) => {},
    }
}

/// Where sudogs and goroutines stay, so do the values.
proof fn lemma_same_sudogs_custody<V>(
    v: ChansView<V>,
    gs: Seq<G>,
    u: ChansView<V>,
    hs: Seq<G>,
    gp: usize,
    cases: Seq<SCase<V>>,
    sent: Seq<SCase<V>>,
)
    requires
        in_custody(v, gs, gp, cases, sent),
        u.sudogs == v.sudogs,
        hs == gs,
        registered(u, gp, cases),
        forall|t: usize| #[trigger] u.pool.lists(t) ==> v.pool.lists(t),
        forall|c: int, t: usize|
            0 <= c < u.chans.len() && #[trigger] on(u, c, t) ==> c < v.chans.len() && on(v, c, t),
        gs[gp as int].param is Some ==> off(u, gs[gp as int].param->0),
    ensures
        in_custody(u, hs, gp, cases, sent),
{
    assert forall|i: int| 0 <= i < cases.len() && (#[trigger] cases[i]).send implies u.recovered(
        cases[i],
    ).elem == (if won(u, hs, gp, cases[i]) {
        None
    } else {
        sent[i].elem
    }) by {
        assert(u.recovered(cases[i]) == v.recovered(cases[i]));
        assert(won(u, hs, gp, cases[i]) == won(v, gs, gp, cases[i]));
    }
    assert forall|c: int, t: usize|
        0 <= c < u.chans.len() && #[trigger] on(u, c, t) && u.sudogs[t as int].g == Some(
            gp,
        ) implies has_sudog(cases, t) by {
        assert(on(v, c, t));
    }
}

/// The operations `ops`, one after the other, lead through `states`, while
/// goroutine `gp` waits.
pub open spec fn runs<V>(
    states: Seq<(ChansView<V>, Seq<G>)>,
    ops: Seq<Op<V>>,
    gp: usize,
) -> bool {
    &&& states.len() == ops.len() + 1
    &&& forall|k: int| 0 <= k < states.len() ==> valid((#[trigger] states[k]).0, states[k].1)
    &&& forall|k: int|
        0 <= k < ops.len() ==> (#[trigger] ops[k]).allowed(states[k].0, states[k].1, gp)
            && states[k + 1] == ops[k].after(states[k].0, states[k].1)
}

/// While goroutine `gp` waits, its values are in custody in every state.
proof fn lemma_runs_in_custody<V>(
    states: Seq<(ChansView<V>, Seq<G>)>,
    ops: Seq<Op<V>>,
    gp: usize,
    cases: Seq<SCase<V>>,
    sent: Seq<SCase<V>>,
    k: int,
)
    requires
        runs(states, ops, gp),
        in_custody(states[0].0, states[0].1, gp, cases, sent),
        0 <= k < states.len(),
    ensures
        in_custody(states[k].0, states[k].1, gp, cases, sent),
    decreases k,
{
    if k > 0 {
        lemma_runs_in_custody(states, ops, gp, cases, sent, k - 1);
        let op = ops[k - 1];
        assert(op.allowed(states[k - 1].0, states[k - 1].1, gp));
        assert(valid(states[k].0, states[k].1));
        every_step_keeps_custody(states[k - 1].0, states[k - 1].1, gp, cases, sent, op);
    }
}

/// The value of a case, as it stands in one of some states.
pub open spec fn value_at<V>(
    states: Seq<(ChansView<V>, Seq<G>)>,
    k: int,
    case: SCase<V>,
) -> Option<V> {
    states[k].0.recovered(case).elem
}

/// While goroutine `gp` waits, the value that case `i` wants to send is with the
/// case until one receive takes it, and is gone from then on; that receive gets
/// it, or puts it into the buffer, and the goroutine is told that the case went
/// through.  If it is not told so, no operation has taken the value, and it is
/// still there.
pub proof fn a_waiting_value_is_taken_once<V>(
    states: Seq<(ChansView<V>, Seq<G>)>,
    ops: Seq<Op<V>>,
    gp: usize,
    cases: Seq<SCase<V>>,
    sent: Seq<SCase<V>>,
    i: int,
)
    requires
        runs(states, ops, gp),
        in_custody(states[0].0, states[0].1, gp, cases, sent),
        states[0].1[gp as int].param is None,
        0 <= i < cases.len(),
        cases[i].send,
        sent[i].elem is Some,
    ensures
        in_custody(states.last().0, states.last().1, gp, cases, sent),
        won(states.last().0, states.last().1, gp, cases[i]) ==> exists|k: int|
            0 <= k < ops.len() && (#[trigger] ops[k]).takes(
                states[k].0,
                states[k].1,
                sent[i].chan,
                sent[i].elem,
            ) && (forall|j: int|
                0 <= j <= k ==> #[trigger] value_at(states, j, cases[i]) == sent[i].elem) && (
            forall|j: int|
                k < j < states.len() ==> #[trigger] value_at(states, j, cases[i]) is None),
        !won(states.last().0, states.last().1, gp, cases[i]) ==> forall|j: int|
            0 <= j < states.len() ==> #[trigger] value_at(states, j, cases[i]) == sent[i].elem,
    decreases ops.len(),
{
    let n = ops.len() as int;
    lemma_runs_in_custody(states, ops, gp, cases, sent, n);
    if n == 0 {
        assert(!won(states[0].0, states[0].1, gp, cases[i]));
        assert(value_at(states, 0, cases[i]) == sent[i].elem);
    } else {
        let ss = states.drop_last();
        let os = ops.drop_last();
        assert(runs(ss, os, gp)) by {
            assert forall|k: int| 0 <= k < ss.len() implies valid((#[trigger] ss[k]).0, ss[k].1) by {
                assert(ss[k] == states[k]);
            }
            assert forall|k: int| 0 <= k < os.len() implies (#[trigger] os[k]).allowed(
                ss[k].0,
                ss[k].1,
                gp,
            ) && ss[k + 1] == os[k].after(ss[k].0, ss[k].1) by {
                assert(os[k] == ops[k]);
            }
        }
        a_waiting_value_is_taken_once(ss, os, gp, cases, sent, i);
        let (v, gs) = states[n - 1];
        let (u, hs) = states[n];
        assert(ss.last() == states[n - 1]);
        lemma_runs_in_custody(states, ops, gp, cases, sent, n - 1);
        assert(ops[n - 1].allowed(v, gs, gp));
        assert(valid(states[n].0, states[n].1));
        every_step_keeps_custody(v, gs, gp, cases, sent, ops[n - 1]);
        assert forall|j: int| 0 <= j < n implies #[trigger] value_at(states, j, cases[i])
            == value_at(ss, j, cases[i]) by {
            assert(ss[j] == states[j]);
        }
        if won(v, gs, gp, cases[i]) {
            assert(enlisted_case(v, gp, cases[i]));
            assert(won(u, hs, gp, cases[i]));
            let k = choose|k: int|
                0 <= k < os.len() && (#[trigger] os[k]).takes(
                    ss[k].0,
                    ss[k].1,
                    sent[i].chan,
                    sent[i].elem,
                ) && (forall|j: int|
                    0 <= j <= k ==> #[trigger] value_at(ss, j, cases[i]) == sent[i].elem) && (
                forall|j: int|
                    k < j < ss.len() ==> #[trigger] value_at(ss, j, cases[i]) is None);
            assert(ops[k] == os[k] && ss[k] == states[k]);
            assert forall|j: int| k < j < states.len() implies #[trigger] value_at(
                states,
                j,
                cases[i],
            ) is None by {
                if j < n {
                    assert(value_at(ss, j, cases[i]) is None);
                }
            }
            assert forall|j: int| 0 <= j <= k implies #[trigger] value_at(states, j, cases[i])
                == sent[i].elem by {
                assert(value_at(ss, j, cases[i]) == sent[i].elem);
            }
        } else if won(u, hs, gp, cases[i]) {
            assert(ops[n - 1].takes(v, gs, sent[i].chan, sent[i].elem));
            assert forall|j: int| 0 <= j <= n - 1 implies #[trigger] value_at(states, j, cases[i])
                == sent[i].elem by {
                assert(value_at(ss, j, cases[i]) == sent[i].elem);
            }
            assert(value_at(states, n, cases[i]) is None);
        } else {
            assert forall|j: int| 0 <= j < states.len() implies #[trigger] value_at(
                states,
                j,
                cases[i],
            ) == sent[i].elem by {
                if j < n {
                    assert(value_at(ss, j, cases[i]) == sent[i].elem);
                }
            }
        }
    }
}

/// Looking at cases none of which is ready changes no sudog and no goroutine, and
/// nobody waits who did not.
proof fn lemma_polled_in_vain<V>(
    v: ChansView<V>,
    gs: Seq<G>,
    cases: Seq<SCase<V>>,
    order: Seq<usize>,
    k: nat,
)
    requires
        cases_ok(cases, v.chans.len()),
        forall|j: int| 0 <= j < order.len() ==> (#[trigger] order[j]) < cases.len(),
        v.polled(gs, cases, order, k).found is None,
    ensures
        ({
            let q = v.polled(gs, cases, order, k);
            &&& q.v.sudogs == v.sudogs
            &&& q.v.pool == v.pool
            &&& q.gs == gs
            &&& q.cases == cases
            &&& fewer_wait(v, q.v)
        }),
    decreases order.len() - k,
{
    if k < order.len() {
        let x = cases[order[k as int] as int];
        let t = v.tried(gs, x);
        lemma_try_fewer(v, gs, x);
        lemma_polled_in_vain(t.v, gs, cases, order, k + 1);
    }
}

/// Beginning to wait leaves as many cases as there were.
proof fn lemma_enlisted_len<V>(
    v: ChansView<V>,
    cases: Seq<SCase<V>>,
    p: Option<usize>,
    gp: usize,
    n: nat,
)
    requires
        n <= cases.len(),
    ensures
        v.enlisted(cases, p, gp, n).cases.len() == cases.len(),
    decreases n,
{
    if n > 0 {
        lemma_enlisted_len(v, cases, p, gp, (n - 1) as nat);
    }
}

/// After goroutine `gp` has begun to wait with the first `n` of its cases, their
/// values are with their sudogs, and it waits with no others than before.
proof fn lemma_enlisted<V>(
    v: ChansView<V>,
    cases: Seq<SCase<V>>,
    p: Option<usize>,
    gp: usize,
    n: nat,
)
    requires
        n <= cases.len(),
        cases_ok(cases, v.chans.len()),
        opt_below(p, v.pool.locals.len()),
        v.pool.nslots == v.sudogs.len(),
        v.pool.in_range(),
        forall|c: int, t: usize|
            0 <= c < v.chans.len() && #[trigger] on(v, c, t) ==> t < v.sudogs.len(),
        v.enlisted(cases, p, gp, n).v.sudogs.len() <= usize::MAX,
        forall|i: int, j: int|
            0 <= i < j < n ==> (#[trigger] v.enlisted(cases, p, gp, n).cases[i]).sg != (
            #[trigger] v.enlisted(cases, p, gp, n).cases[j]).sg,
    ensures
        ({
            let e = v.enlisted(cases, p, gp, n);
            &&& e.cases.len() == cases.len()
            &&& e.v.chans.len() == v.chans.len()
            &&& e.v.pool.locals.len() == v.pool.locals.len()
            &&& e.v.pool.nslots == e.v.sudogs.len()
            &&& e.v.pool.in_range()
            &&& forall|i: int| n <= i < cases.len() ==> #[trigger] e.cases[i] == cases[i]
            &&& forall|i: int|
                0 <= i < n ==> (#[trigger] e.cases[i]).chan == cases[i].chan && e.cases[i].send
                    == cases[i].send && e.cases[i].sg is Some && e.cases[i].sg->0
                    < e.v.sudogs.len() && e.v.sudogs[e.cases[i].sg->0 as int]
                    == ChansView::<V>::waiting(gp, cases[i].chan, cases[i].elem)
            &&& forall|c: int, t: usize|
                0 <= c < v.chans.len() && #[trigger] on(e.v, c, t) ==> has_sudog(
                    e.cases.take(n as int),
                    t,
                ) || on(v, c, t) && e.v.sudogs[t as int] == v.sudogs[t as int]
            &&& v.sudogs.len() <= e.v.sudogs.len()
        }),
    decreases n,
{
    if n > 0 {
        let m = (n - 1) as nat;
        let d = v.enlisted(cases, p, gp, m);
        let e = v.enlisted(cases, p, gp, n);
        let x = d.cases[n - 1];
        let new = d.v.pool.acquired(p);
        lemma_enlisted_len(v, cases, p, gp, m);
        assert(d.v.sudogs.len() <= e.v.sudogs.len());
        assert forall|i: int| 0 <= i < m implies #[trigger] e.cases[i] == d.cases[i] by {}
        assert forall|i: int, j: int| 0 <= i < j < m implies (#[trigger] d.cases[i]).sg != (
        #[trigger] d.cases[j]).sg by {
            assert(e.cases[i].sg != e.cases[j].sg);
        }
        lemma_enlisted(v, cases, p, gp, m);
        assert(x == cases[n - 1]);
        lemma_acquire_lists(d.v.pool, p);
        assert(new <= d.v.sudogs.len());
        assert(e.v.sudogs[new as int] == ChansView::<V>::waiting(gp, x.chan, x.elem));
        assert(e.v.pool.in_range()) by {
            assert forall|t: usize| #[trigger] e.v.pool.lists(t) implies t < e.v.pool.nslots by {
                assert(d.v.pool.lists(t));
            }
        }
        assert(e.cases[n - 1].sg == Some(new));
        assert forall|i: int| 0 <= i < n implies (#[trigger] e.cases[i]).chan == cases[i].chan
            && e.cases[i].send == cases[i].send && e.cases[i].sg is Some && e.cases[i].sg->0
            < e.v.sudogs.len() && e.v.sudogs[e.cases[i].sg->0 as int] == ChansView::<V>::waiting(
            gp,
            cases[i].chan,
            cases[i].elem,
        ) by {
            if i < m {
                assert(e.cases[i] == d.cases[i]);
                assert(e.cases[i].sg != e.cases[n - 1].sg);
            }
        }
        assert forall|c: int, t: usize|
            0 <= c < v.chans.len() && #[trigger] on(e.v, c, t) implies has_sudog(
            e.cases.take(n as int),
            t,
        ) || on(v, c, t) && e.v.sudogs[t as int] == v.sudogs[t as int] by {
            if t == new {
                assert(e.cases.take(n as int)[n - 1].sg == Some(t));
            } else {
                assert(on(d.v, c, t)) by {
                    if e.v.chans[c].sendq.contains(t) {
                        let i = e.v.chans[c].sendq.index_of(t);
                        assert(d.v.chans[c].sendq[i] == t);
                    } else {
                        let i = e.v.chans[c].recvq.index_of(t);
                        assert(d.v.chans[c].recvq[i] == t);
                    }
                }
                if has_sudog(d.cases.take(m as int), t) {
                    let i = choose|i: int|
                        0 <= i < m && (#[trigger] d.cases.take(m as int)[i]).sg == Some(t);
                    assert(e.cases.take(n as int)[i].sg == Some(t));
                }
            }
        }
    }
}

/// A goroutine that waits nowhere and begins to wait with its cases leaves their
/// values in custody.
pub proof fn parking_gives_custody<V>(
    v: ChansView<V>,
    rt: RtView,
    m: Option<usize>,
    gp: usize,
    sent: Seq<SCase<V>>,
    order: Seq<usize>,
    s: Chans<V>,
)
    requires
        valid(v, rt.gs),
        gp < rt.gs.len(),
        cases_ok(sent, v.chans.len()),
        waits_nowhere(v, gp),
        opt_below(rt.processor(m), v.pool.locals.len()),
        forall|j: int| 0 <= j < order.len() ==> (#[trigger] order[j]) < sent.len(),
        ({
            let q = v.polled(rt.gs, sent, order, 0);
            let (step, _, e) = selected(q, rt, m, Some(gp), false);
            &&& step == SelectStep::Park
            &&& s.wf()
            &&& s@ == e.v
            &&& held(s, e.cases)
            &&& registered(s@, gp, e.cases)
        }),
    ensures
        ({
            let q = v.polled(rt.gs, sent, order, 0);
            let (_, now, e) = selected(q, rt, m, Some(gp), false);
            &&& in_custody(e.v, now.gs, gp, e.cases, sent)
            &&& now.gs[gp as int].param is None
        }),
{
    let q = v.polled(rt.gs, sent, order, 0);
    let p = rt.processor(m);
    let (_, now, e) = selected(q, rt, m, Some(gp), false);
    lemma_polled_in_vain(v, rt.gs, sent, order, 0);
    lemma_lists_are_free(s);
    assert forall|c: int, t: usize| 0 <= c < q.v.chans.len() && #[trigger] on(q.v, c, t) implies on(
        v,
        c,
        t,
    ) && t < q.v.sudogs.len() && q.v.sudogs[t as int].g != Some(gp) by {
        assert(on(v, c, t));
        lemma_queued_exists(v, c, t);
        if v.sudogs[t as int].g == Some(gp) {
            assert(has_sudog(Seq::<SCase<V>>::empty(), t));
        }
    }
    assert(s.pool.slots.len() == s.pool.slots@.len());
    lemma_enlisted_len(q.v, sent, p, gp, sent.len());
    lemma_enlisted(q.v, sent, p, gp, sent.len());
    assert(e.cases.take(sent.len() as int) =~= e.cases);
    assert forall|i: int| 0 <= i < e.cases.len() implies !e.v.pool.lists(
        (#[trigger] e.cases[i]).sg->0,
    ) by {
        assert(s.pool.in_use(e.cases[i].sg->0));
    }
}

/// When the wait of goroutine `gp` ends, it waits nowhere.
pub proof fn finishing_leaves_nobody_waiting<V>(
    v: ChansView<V>,
    gs: Seq<G>,
    gp: usize,
    cases: Seq<SCase<V>>,
    sent: Seq<SCase<V>>,
    w: int,
    p: Option<usize>,
)
    requires
        valid(v, gs),
        in_custody(v, gs, gp, cases, sent),
        opt_below(p, v.pool.locals.len()),
    ensures
        waits_nowhere(
            v.unqueued(cases, w, cases.len() as int).given_back(cases, p, cases.len()),
            gp,
        ),
{
    let a = v.unqueued(cases, w, cases.len() as int);
    let u = a.given_back(cases, p, cases.len());
    lemma_unqueued_fewer(v, cases, w, cases.len() as int);
    assert forall|i: int| 0 <= i < cases.len() implies (#[trigger] cases[i]).sg is Some
        && cases[i].sg->0 < a.sudogs.len() by {
        assert(enlisted_case(v, gp, cases[i]));
    }
    lemma_given_back(a, cases, p, cases.len());
    assert(cases.take(cases.len() as int) =~= cases);
    assert forall|c: int, t: usize|
        0 <= c < u.chans.len() && #[trigger] on(u, c, t) && u.sudogs[t as int].g == Some(
            gp,
        ) implies has_sudog(Seq::<SCase<V>>::empty(), t) by {
        assert(on(v, c, t));
        lemma_queued_exists(v, c, t);
        if has_sudog(cases, t) {
            let i = choose|i: int| 0 <= i < cases.len() && (#[trigger] cases[i]).sg == Some(t);
            assert(u.sudogs[cases[i].sg->0 as int].g is None);
        } else {
            assert(u.sudogs[t as int] == a.sudogs[t as int]);
        }
    }
}

/// A value that is sent without waiting is handed on at once: it is in the
/// buffer, behind all others, or with the receiver that waited for it.  On a
/// closed channel it stays.
pub proof fn a_value_sent_at_once_is_handed_on<V>(
    v: ChansView<V>,
    gs: Seq<G>,
    cases: Seq<SCase<V>>,
    order: Seq<usize>,
    k: nat,
)
    requires
        cases_ok(cases, v.chans.len()),
        v.sound(),
        v.names(gs.len()),
        forall|j: int| 0 <= j < order.len() ==> (#[trigger] order[j]) < cases.len(),
    ensures
        ({
            let q = v.polled(gs, cases, order, k);
            match q.found {
                Some((i, r)) => {
                    let x = cases[i as int];
                    let a = v.chans[x.chan as int];
                    let b = q.v.chans[x.chan as int];
                    i < cases.len() && (x.send ==> match r {
                        TryResult::Done { ok } => ok && b.buf == a.buf.push(x.elem->0) && q.v.sudogs
                            == v.sudogs && q.gs == gs && q.cases[i as int].elem is None,
                        TryResult::Handoff { gp, ok } => {
                            let sg = q.gs[gp as int].param;
                            &&& ok && b.buf == a.buf && q.cases[i as int].elem is None
                            &&& sg is Some && q.v.sudogs[sg->0 as int].g == Some(gp)
                            &&& q.v.sudogs[sg->0 as int].success
                            &&& v.sudogs[sg->0 as int].elem is Slot ==> q.v.sudogs[sg->0 as int].elem
                                == Elem::Slot(x.elem)
                        },
                        _ => b.closed && b.buf == a.buf && q.cases[i as int] == x && q.gs == gs,
                    })
                },
                None => true,
            }
        }),
    decreases order.len() - k,
{
    if k < order.len() {
        let x = cases[order[k as int] as int];
        let t = v.tried(gs, x);
        assert(v.chans[x.chan as int].sound());
        lemma_first_claimable(v.chans[x.chan as int].queue(!x.send), v.sudogs, gs, 0);
        if t.res == TryResult::NotReady {
            assert(t.v.sound()) by {
                assert forall|c: usize| c < t.v.chans.len() implies (
                #[trigger] t.v.chans[c as int]).sound() && all_wait(
                    t.v.chans[c as int].sendq,
                    t.v.sudogs,
                    c,
                    true,
                ) && all_wait(t.v.chans[c as int].recvq, t.v.sudogs, c, false) by {
                    assert(v.chans[c as int].sound());
                }
            }
            a_value_sent_at_once_is_handed_on(t.v, gs, cases, order, k + 1);
        } else if x.send && t.res is Handoff {
            let q = v.chans[x.chan as int].recvq;
            let sg = q[v.first_waiter(gs, x.chan as int, false) as int];
            assert(waits(v.sudogs[sg as int], x.chan, false));
            assert(opt_below(v.sudogs[sg as int].g, gs.len()));
        }
    }
}

/// The whole of a `select` that waits, from the call until the goroutine has gone
/// on: the value of a case that sends is moved out exactly where that case is the
/// one that is reported and went through, and then one receive, while the
/// goroutine waited, has taken it, once.  Every other value is still with its
/// case.
pub proof fn a_select_moves_what_it_reports<V>(
    v: ChansView<V>,
    rt: RtView,
    m: Option<usize>,
    gp: usize,
    sent: Seq<SCase<V>>,
    s: Chans<V>,
    states: Seq<(ChansView<V>, Seq<G>)>,
    ops: Seq<Op<V>>,
    index: usize,
    ok: bool,
    after: Seq<SCase<V>>,
)
    requires
        valid(v, rt.gs),
        gp < rt.gs.len(),
        cases_ok(sent, v.chans.len()),
        waits_nowhere(v, gp),
        opt_below(rt.processor(m), v.pool.locals.len()),
        ({
            let order = poll_order_of(sent.len(), rt.number(Some(gp)));
            let (step, now, e) = selected(
                v.polled(rt.gs, sent, order, 0),
                rt,
                m,
                Some(gp),
                false,
            );
            let (u, hs) = states.last();
            &&& step == SelectStep::Park
            &&& s.wf()
            &&& s@ == e.v
            &&& held(s, e.cases)
            &&& registered(s@, gp, e.cases)
            &&& runs(states, ops, gp)
            &&& states[0] == (e.v, now.gs)
            &&& hs[gp as int].param is Some
            &&& index < e.cases.len()
            &&& e.cases[index as int].sg == hs[gp as int].param
            &&& ok == u.sudogs[hs[gp as int].param->0 as int].success
            &&& after.len() == e.cases.len()
            &&& forall|i: int|
                0 <= i < e.cases.len() ==> #[trigger] after[i] == u.recovered(e.cases[i])
        }),
        sent.len() <= usize::MAX,
    ensures
        moved(sent, after, index as int, ok),
        sent[index as int].send && ok ==> exists|k: int|
            0 <= k < ops.len() && (#[trigger] ops[k]).takes(
                states[k].0,
                states[k].1,
                sent[index as int].chan,
                sent[index as int].elem,
            ),
{
    let order = poll_order_of(sent.len(), rt.number(Some(gp)));
    poll_order_is_a_permutation(sent.len(), rt.number(Some(gp)));
    assert forall|j: int| 0 <= j < order.len() implies (#[trigger] order[j]) < sent.len() by {
        assert(order.contains(order[j]));
    }
    let (_, now, e) = selected(v.polled(rt.gs, sent, order, 0), rt, m, Some(gp), false);
    let (u, hs) = states.last();
    parking_gives_custody(v, rt, m, gp, sent, order, s);
    lemma_runs_in_custody(states, ops, gp, e.cases, sent, ops.len() as int);
    assert forall|i: int| 0 <= i < sent.len() && (#[trigger] sent[i]).send implies after[i].elem
        == (if i == index && ok {
        None
    } else {
        sent[i].elem
    }) by {
        assert(e.cases[i].send);
        assert(after[i] == u.recovered(e.cases[i]));
        if i < index {
            assert(e.cases[i].sg != e.cases[index as int].sg);
        } else if index < i {
            assert(e.cases[index as int].sg != e.cases[i].sg);
        }
    }
    if sent[index as int].send && ok {
        assert(e.cases[index as int].send);
        a_waiting_value_is_taken_once(states, ops, gp, e.cases, sent, index as int);
    }
}

/// A goroutine that was told which of its cases won can end its wait: it is still
/// registered, the winner is among its cases, and is on no queue.
pub proof fn a_told_goroutine_can_finish<V>(
    v: ChansView<V>,
    gs: Seq<G>,
    gp: usize,
    cases: Seq<SCase<V>>,
    sent: Seq<SCase<V>>,
)
    requires
        in_custody(v, gs, gp, cases, sent),
        gs[gp as int].param is Some,
    ensures
        registered(v, gp, cases),
        exists|w: int| 0 <= w < cases.len() && (#[trigger] cases[w]).sg == gs[gp as int].param,
        forall|c: int|
            0 <= c < v.chans.len() ==> !(#[trigger] v.chans[c]).sendq.contains(
                gs[gp as int].param->0,
            ) && !v.chans[c].recvq.contains(gs[gp as int].param->0),
{
    assert(has_sudog(cases, gs[gp as int].param->0));
}

} // verus!
