//! The values under way on a channel: they come out in the order in which they
//! were sent, each once.

use vstd::prelude::*;

use crate::chan::{all_wait, lemma_first_claimable, waits, ChansView};
use crate::runtime::g::G;
use crate::runtime::sched::opt_below;
use crate::runtime::sudog::{claimable, Sudog};
use crate::select::TryResult;

verus! {

/// The values that the goroutines of a queue have to send, as far as they can
/// still be claimed.
pub open spec fn offered<V>(q: Seq<usize>, sudogs: Seq<Sudog<V>>, gs: Seq<G>) -> Seq<V>
    decreases q.len(),
{
    if q.len() == 0 {
        Seq::empty()
    } else if claimable(sudogs[q[0] as int], gs) {
        seq![sudogs[q[0] as int].elem->0->0] + offered(q.skip(1), sudogs, gs)
    } else {
        offered(q.skip(1), sudogs, gs)
    }
}

impl<V> ChansView<V> {
    /// The values under way on channel `c`: those in its buffer, and behind them
    /// those of the goroutines that wait to send.
    pub open spec fn stream(self, gs: Seq<G>, c: int) -> Seq<V> {
        self.chans[c].buf + offered(self.chans[c].sendq, self.sudogs, gs)
    }

    /// No goroutine waits twice to send on channel `c`.
    pub open spec fn each_sends_once(self, c: int) -> bool {
        forall|i: int, j: int|
            0 <= i < j < self.chans[c].sendq.len() ==> self.sudogs[(
            #[trigger] self.chans[c].sendq[i]) as int].g != self.sudogs[(
            #[trigger] self.chans[c].sendq[j]) as int].g
    }
}

/// Goroutines that cannot be claimed offer nothing.
proof fn lemma_offered_skip<V>(q: Seq<usize>, sudogs: Seq<Sudog<V>>, gs: Seq<G>, k: int)
    requires
        0 <= k <= q.len(),
        forall|j: int| 0 <= j < k ==> !claimable(sudogs[(#[trigger] q[j]) as int], gs),
    ensures
        offered(q, sudogs, gs) == offered(q.skip(k), sudogs, gs),
    decreases k,
{
    if k > 0 {
        let r = q.skip(1);
        assert forall|j: int| 0 <= j < k - 1 implies !claimable(
            sudogs[(#[trigger] r[j]) as int],
            gs,
        ) by {
            assert(r[j] == q[j + 1]);
        }
        assert(!claimable(sudogs[q[0] as int], gs));
        lemma_offered_skip(r, sudogs, gs, k - 1);
        assert(r.skip(k - 1) =~= q.skip(k));
    } else {
        assert(q.skip(0) =~= q);
    }
}

/// What is offered depends on the queue's own sudogs alone.
proof fn lemma_offered_same<V>(
    q: Seq<usize>,
    a: Seq<Sudog<V>>,
    ga: Seq<G>,
    b: Seq<Sudog<V>>,
    gb: Seq<G>,
)
    requires
        forall|i: int|
            0 <= i < q.len() ==> a[(#[trigger] q[i]) as int].elem == b[q[i] as int].elem
                && claimable(a[q[i] as int], ga) == claimable(b[q[i] as int], gb),
    ensures
        offered(q, a, ga) == offered(q, b, gb),
    decreases q.len(),
{
    if q.len() > 0 {
        let r = q.skip(1);
        assert forall|i: int| 0 <= i < r.len() implies a[(#[trigger] r[i]) as int].elem
            == b[r[i] as int].elem && claimable(a[r[i] as int], ga) == claimable(
            b[r[i] as int],
            gb,
        ) by {
            assert(r[i] == q[i + 1]);
        }
        lemma_offered_same(r, a, ga, b, gb);
        assert(a[q[0] as int].elem == b[q[0] as int].elem);
    }
}

/// A goroutine at the end of a queue offers its value last.
proof fn lemma_offered_push<V>(q: Seq<usize>, sudogs: Seq<Sudog<V>>, gs: Seq<G>, x: usize)
    requires
        claimable(sudogs[x as int], gs),
    ensures
        offered(q.push(x), sudogs, gs) == offered(q, sudogs, gs).push(
            sudogs[x as int].elem->0->0,
        ),
    decreases q.len(),
{
    reveal_with_fuel(offered, 2);
    let p = q.push(x);
    assert(p.skip(1) =~= if q.len() == 0 {
        Seq::empty()
    } else {
        q.skip(1).push(x)
    });
    if q.len() > 0 {
        lemma_offered_push(q.skip(1), sudogs, gs, x);
        assert(p[0] == q[0]);
    }
    assert(offered(p, sudogs, gs) =~= offered(q, sudogs, gs).push(sudogs[x as int].elem->0->0));
}

/// A receive takes the value that has been under way longest, and leaves the
/// others in their order; where none is under way, it gets none.
pub proof fn receiving_takes_the_first<V>(v: ChansView<V>, gs: Seq<G>, c: usize)
    requires
        v.sound(),
        v.names(gs.len()),
        c < v.chans.len(),
        v.each_sends_once(c as int),
    ensures
        ({
            let t = v.tried_recv(gs, c as int, None);
            let s = v.stream(gs, c as int);
            &&& s.len() > 0 ==> t.elem == Some(s[0]) && t.v.stream(t.gs, c as int) == s.skip(1)
            &&& s.len() == 0 ==> t.elem is None && t.v.stream(t.gs, c as int) == s && (t.res
                == TryResult::NotReady || t.res == TryResult::Done { ok: false })
            &&& t.v.sound()
            &&& t.v.names(t.gs.len())
            &&& t.v.each_sends_once(c as int)
            &&& t.v.chans.len() == v.chans.len()
        }),
{
    let ch = v.chans[c as int];
    let q = ch.sendq;
    let k = v.first_waiter(gs, c as int, true) as int;
    let t = v.tried_recv(gs, c as int, None);
    let s = v.stream(gs, c as int);
    let u = t.v.chans[c as int];
    assert(ch.sound());
    assert(all_wait(q, v.sudogs, c, true));
    lemma_first_claimable(q, v.sudogs, gs, 0);
    lemma_offered_skip(q, v.sudogs, gs, k);
    if k < q.len() {
        let sg = q[k];
        let x = v.sudogs[sg as int];
        let val = x.elem->0->0;
        let rest = q.skip(k + 1);
        assert(waits(x, c, true));
        assert(q.skip(k)[0] == sg);
        assert(q.skip(k).skip(1) =~= rest);
        assert forall|i: int| 0 <= i < rest.len() implies v.sudogs[(
        #[trigger] rest[i]) as int].elem == t.v.sudogs[rest[i] as int].elem && claimable(
            v.sudogs[rest[i] as int],
            gs,
        ) == claimable(t.v.sudogs[rest[i] as int], t.gs) by {
            assert(rest[i] == q[k + 1 + i]);
            assert(v.sudogs[q[k] as int].g != v.sudogs[q[k + 1 + i] as int].g);
        }
        lemma_offered_same(rest, v.sudogs, gs, t.v.sudogs, t.gs);
        assert(s =~= ch.buf.push(val) + offered(rest, v.sudogs, gs));
        assert(t.v.stream(t.gs, c as int) =~= s.skip(1));
    } else {
        assert(q.skip(k) =~= Seq::empty());
        assert(s =~= ch.buf);
        assert(t.v.stream(t.gs, c as int) =~= u.buf);
    }
    assert forall|d: usize| d < t.v.chans.len() implies (
    #[trigger] t.v.chans[d as int]).sound() && all_wait(
        t.v.chans[d as int].sendq,
        t.v.sudogs,
        d,
        true,
    ) && all_wait(t.v.chans[d as int].recvq, t.v.sudogs, d, false) by {
        let a = v.chans[d as int];
        let b = t.v.chans[d as int];
        assert(a.sound() && all_wait(a.sendq, v.sudogs, d, true) && all_wait(
            a.recvq,
            v.sudogs,
            d,
            false,
        ));
        assert forall|i: int| 0 <= i < b.recvq.len() implies (#[trigger] b.recvq[i])
            < t.v.sudogs.len() && waits(t.v.sudogs[b.recvq[i] as int], d, false) by {
            assert(a.recvq[i] < v.sudogs.len() && waits(v.sudogs[a.recvq[i] as int], d, false));
        }
        assert forall|i: int| 0 <= i < b.sendq.len() implies (#[trigger] b.sendq[i])
            < t.v.sudogs.len() && waits(t.v.sudogs[b.sendq[i] as int], d, true) by {
            let j = if d == c {
                k + 1 + i
            } else {
                i
            };
            assert(b.sendq[i] == a.sendq[j]);
            assert(waits(v.sudogs[a.sendq[j] as int], d, true));
            if k < q.len() && a.sendq[j] == q[k] {
                assert(waits(v.sudogs[q[k] as int], c, true));
                assert(d == c);
            }
        }
        assert(b.sendq.no_duplicates());
    }
    assert forall|i: int| 0 <= i < t.v.sudogs.len() implies opt_below(
        (#[trigger] t.v.sudogs[i]).g,
        t.gs.len(),
    ) by {
        assert(opt_below(v.sudogs[i].g, gs.len()));
    }
    assert forall|i: int, j: int| 0 <= i < j < u.sendq.len() implies t.v.sudogs[(
    #[trigger] u.sendq[i]) as int].g != t.v.sudogs[(#[trigger] u.sendq[j]) as int].g by {
        assert(u.sendq[i] == q[k + 1 + i] && u.sendq[j] == q[k + 1 + j]);
    }
}

/// A value that goes into the buffer is behind all that are under way; a try
/// that would have to wait leaves them as they are.
pub proof fn sending_appends<V>(v: ChansView<V>, gs: Seq<G>, c: usize, val: V)
    requires
        v.sound(),
        c < v.chans.len(),
    ensures
        ({
            let t = v.tried_send(gs, c as int, Some(val));
            let s = v.stream(gs, c as int);
            &&& t.res == TryResult::Done { ok: true } ==> t.v.stream(t.gs, c as int) == s.push(val)
            &&& t.res == TryResult::NotReady ==> t.v.stream(t.gs, c as int) == s && t.elem == Some(
                val,
            )
        }),
{
    let ch = v.chans[c as int];
    let t = v.tried_send(gs, c as int, Some(val));
    assert(ch.sound());
    if t.res == (TryResult::Done { ok: true }) {
        assert(ch.sendq =~= Seq::empty());
        assert(t.v.stream(t.gs, c as int) =~= v.stream(gs, c as int).push(val));
    }
}

/// The value of a goroutine that begins to wait to send is behind all that are
/// under way.
pub proof fn waiting_appends<V>(
    v: ChansView<V>,
    gs: Seq<G>,
    c: usize,
    p: Option<usize>,
    gp: usize,
    val: V,
)
    requires
        v.sound(),
        c < v.chans.len(),
        v.pool.acquired(p) <= v.sudogs.len(),
        !v.chans[c as int].sendq.contains(v.pool.acquired(p)),
        gs[gp as int].selectdone == 0,
    ensures
        v.after_enqueue(c, true, p, gp, Some(val)).stream(gs, c as int) == v.stream(
            gs,
            c as int,
        ).push(val),
{
    let w = v.after_enqueue(c, true, p, gp, Some(val));
    let q = v.chans[c as int].sendq;
    let sg = v.pool.acquired(p);
    assert(all_wait(q, v.sudogs, c, true)) by {
        assert(v.chans[c as int].sound());
    }
    assert forall|i: int| 0 <= i < q.len() implies v.sudogs[(#[trigger] q[i]) as int].elem
        == w.sudogs[q[i] as int].elem && claimable(v.sudogs[q[i] as int], gs) == claimable(
        w.sudogs[q[i] as int],
        gs,
    ) by {
        assert(q.contains(q[i]));
    }
    lemma_offered_same(q, v.sudogs, gs, w.sudogs, gs);
    lemma_offered_push(q, w.sudogs, gs, sg);
    assert(w.stream(gs, c as int) =~= v.stream(gs, c as int).push(val));
}

/// The state, and the goroutines, after `n` receives from channel `c`.
pub open spec fn drained<V>(v: ChansView<V>, gs: Seq<G>, c: int, n: nat) -> (
    ChansView<V>,
    Seq<G>,
)
    decreases n,
{
    if n == 0 {
        (v, gs)
    } else {
        let (u, hs) = drained(v, gs, c, (n - 1) as nat);
        let t = u.tried_recv(hs, c, None);
        (t.v, t.gs)
    }
}

/// The values under way on a channel are received in order, each once: after `n`
/// receives, the next one gets the `n`-th value, whether it was buffered or its
/// sender waited.
pub proof fn values_come_out_in_order<V>(v: ChansView<V>, gs: Seq<G>, c: usize, n: nat)
    requires
        v.sound(),
        v.names(gs.len()),
        c < v.chans.len(),
        v.each_sends_once(c as int),
        n <= v.stream(gs, c as int).len(),
    ensures
        ({
            let (u, hs) = drained(v, gs, c as int, n);
            let s = v.stream(gs, c as int);
            &&& u.stream(hs, c as int) == s.skip(n as int)
            &&& n < s.len() ==> u.tried_recv(hs, c as int, None).elem == Some(s[n as int])
            &&& n == s.len() ==> u.tried_recv(hs, c as int, None).elem is None
            &&& u.sound()
            &&& u.names(hs.len())
            &&& u.each_sends_once(c as int)
            &&& u.chans.len() == v.chans.len()
        }),
    decreases n,
{
    let s = v.stream(gs, c as int);
    let (u, hs) = drained(v, gs, c as int, n);
    if n > 0 {
        values_come_out_in_order(v, gs, c, (n - 1) as nat);
        let (u0, hs0) = drained(v, gs, c as int, (n - 1) as nat);
        receiving_takes_the_first(u0, hs0, c);
        assert(s.skip(n - 1).skip(1) =~= s.skip(n as int));
    } else {
        assert(s.skip(0) =~= s);
    }
    receiving_takes_the_first(u, hs, c);
}

} // verus!
