//! Channels: a bounded buffer, and the goroutines that wait on either side.

use vstd::prelude::*;

use std::collections::VecDeque;

use crate::runtime::g::G;
use crate::runtime::sched::opt_below;
use crate::runtime::sudog::{
    claimable, claimed, first_claimable, same_payload, Elem, PoolView, Sudog, SudogPool, WaitQ,
};

verus! {

/// A channel.
pub struct Hchan<V> {
    /// How many values the buffer takes; 0 for a rendezvous.
    pub cap: usize,
    /// Nothing more will be sent.
    pub closed: bool,
    /// Values that were sent and not received, oldest first.
    pub buf: VecDeque<V>,
    /// Goroutines that wait to send.
    pub sendq: WaitQ,
    /// Goroutines that wait to receive.
    pub recvq: WaitQ,
}

/// All channels for values of type `V`, with the goroutines that wait on them.
pub struct Chans<V> {
    pub pool: SudogPool<V>,
    pub chans: Vec<Hchan<V>>,
}

/// The end of a channel that sends.
#[derive(Copy, Clone, Debug, PartialEq, Eq, Structural)]
pub struct Sender {
    pub chan: usize,
}

/// The end of a channel that receives.
#[derive(Copy, Clone, Debug, PartialEq, Eq, Structural)]
pub struct Receiver {
    pub chan: usize,
}

/// What a channel holds.
#[verifier::ext_equal]
pub struct ChanView<V> {
    pub cap: usize,
    pub closed: bool,
    pub buf: Seq<V>,
    pub sendq: Seq<usize>,
    pub recvq: Seq<usize>,
}

/// What all channels hold.
#[verifier::ext_equal]
pub struct ChansView<V> {
    pub chans: Seq<ChanView<V>>,
    /// The sudogs, links aside.
    pub sudogs: Seq<Sudog<V>>,
    /// The free sudogs.
    pub pool: PoolView,
}

impl<V> View for Hchan<V> {
    type V = ChanView<V>;

    open spec fn view(&self) -> ChanView<V> {
        ChanView {
            cap: self.cap,
            closed: self.closed,
            buf: self.buf@,
            sendq: self.sendq@,
            recvq: self.recvq@,
        }
    }
}

/// Sudogs without their links.
pub open spec fn unlinked_all<V>(slots: Seq<Sudog<V>>) -> Seq<Sudog<V>> {
    Seq::new(slots.len(), |i: int| slots[i].unlinked())
}

impl<V> View for Chans<V> {
    type V = ChansView<V>;

    open spec fn view(&self) -> ChansView<V> {
        ChansView {
            chans: Seq::new(self.chans@.len(), |i: int| self.chans@[i]@),
            sudogs: unlinked_all(self.pool.slots@),
            pool: self.pool@,
        }
    }
}

/// A sudog as it stands on a queue of channel `c`: it names its goroutine and
/// the channel, and a sender's has the value.
pub open spec fn waits<V>(s: Sudog<V>, c: usize, sends: bool) -> bool {
    &&& s.g is Some
    &&& s.c == Some(c)
    &&& sends ==> s.elem is Slot && s.elem->0 is Some
}

/// A queue of channel `c` is intact.
pub open spec fn queue_ok<V>(
    q: WaitQ,
    id: int,
    slots: Seq<Sudog<V>>,
    c: usize,
    sends: bool,
) -> bool {
    &&& q.id == id
    &&& q.wf(slots)
    &&& forall|i: int|
        0 <= i < q@.len() ==> waits(slots[(#[trigger] q@[i]) as int], c, sends)
}

impl<V> ChansView<V> {
    /// The state with another channel at `c`.
    pub open spec fn with_chan(self, c: int, x: ChanView<V>) -> ChansView<V> {
        ChansView { chans: self.chans.update(c, x), ..self }
    }

    /// The state with another sudog at `s`.
    pub open spec fn with_sudog(self, s: int, x: Sudog<V>) -> ChansView<V> {
        ChansView { sudogs: self.sudogs.update(s, x), ..self }
    }

    /// The sudog with which goroutine `gp` begins to wait on channel `c`.
    pub open spec fn waiting(gp: usize, c: usize, elem: Option<V>) -> Sudog<V> {
        Sudog {
            g: Some(gp),
            elem: Elem::Slot(elem),
            is_select: true,
            c: Some(c),
            ..Sudog::empty()
        }
    }

    /// Goroutine `gp`, which runs on processor `p`, has begun to wait on one
    /// side of channel `c`, as part of a `select`.
    pub open spec fn after_enqueue(
        self,
        c: usize,
        sends: bool,
        p: Option<usize>,
        gp: usize,
        elem: Option<V>,
    ) -> ChansView<V> {
        let sg = self.pool.acquired(p);
        let x = Self::waiting(gp, c, elem);
        let ch = self.chans[c as int];
        ChansView {
            chans: self.chans.update(c as int, ch.with_queue(sends, ch.queue(sends).push(sg))),
            sudogs: if sg < self.sudogs.len() {
                self.sudogs.update(sg as int, x)
            } else {
                self.sudogs.push(x)
            },
            pool: self.pool.after_acquire(p),
        }
    }

    /// The goroutines that wait are among `ngs`.
    pub open spec fn names(self, ngs: nat) -> bool {
        forall|t: int|
            0 <= t < self.sudogs.len() ==> opt_below((#[trigger] self.sudogs[t]).g, ngs)
    }
}

impl<V> ChanView<V> {
    /// The buffer is within its limit; whoever waits to send waits because it
    /// is full, whoever waits to receive because it is empty; on a closed
    /// channel nobody waits.
    pub open spec fn sound(self) -> bool {
        &&& self.buf.len() <= self.cap
        &&& self.sendq.len() > 0 ==> self.buf.len() == self.cap
        &&& self.recvq.len() > 0 ==> self.buf.len() == 0
        &&& self.closed ==> self.sendq.len() == 0 && self.recvq.len() == 0
    }

    /// An operation on the channel has to wait, unless somebody waits on the
    /// other side.
    pub open spec fn blocked(self, send: bool) -> bool {
        &&& !self.closed
        &&& send ==> self.buf.len() >= self.cap
        &&& !send ==> self.buf.len() == 0
    }

    /// The goroutines that wait to send, or those that wait to receive.
    pub open spec fn queue(self, sends: bool) -> Seq<usize> {
        if sends {
            self.sendq
        } else {
            self.recvq
        }
    }

    /// The channel with other goroutines waiting on one side.
    pub open spec fn with_queue(self, sends: bool, q: Seq<usize>) -> ChanView<V> {
        if sends {
            ChanView { sendq: q, ..self }
        } else {
            ChanView { recvq: q, ..self }
        }
    }

    /// Nobody waits, nothing is buffered.
    pub open spec fn fresh(cap: usize) -> ChanView<V> {
        ChanView {
            cap,
            closed: false,
            buf: Seq::empty(),
            sendq: Seq::empty(),
            recvq: Seq::empty(),
        }
    }
}

/// The sudogs on a queue of channel `c` are there and wait on it.
pub open spec fn all_wait<V>(q: Seq<usize>, sudogs: Seq<Sudog<V>>, c: usize, sends: bool) -> bool {
    &&& q.no_duplicates()
    &&& forall|i: int|
        0 <= i < q.len() ==> (#[trigger] q[i]) < sudogs.len() && waits(
            sudogs[q[i] as int],
            c,
            sends,
        )
}

impl<V> ChansView<V> {
    /// Every channel is sound, and whoever is on its queues waits on it.
    pub open spec fn sound(self) -> bool {
        forall|c: usize|
            c < self.chans.len() ==> (#[trigger] self.chans[c as int]).sound() && all_wait(
                self.chans[c as int].sendq,
                self.sudogs,
                c,
                true,
            ) && all_wait(self.chans[c as int].recvq, self.sudogs, c, false)
    }
}

impl<V> Hchan<V> {
    /// Channel number `c` is intact.
    pub open spec fn wf(self, c: usize, slots: Seq<Sudog<V>>) -> bool {
        &&& self@.sound()
        &&& queue_ok(self.sendq, 2 * c, slots, c, true)
        &&& queue_ok(self.recvq, 2 * c + 1, slots, c, false)
    }
}

impl<V> Chans<V> {
    /// All channels are intact.
    pub open spec fn wf(self) -> bool {
        &&& self.pool.wf()
        &&& 2 * self.chans@.len() <= usize::MAX
        &&& forall|c: usize|
            c < self.chans@.len() ==> (#[trigger] self.chans@[c as int]).wf(
                c,
                self.pool.slots@,
            )
        &&& forall|t: usize|
            t < self.pool.slots@.len() && (#[trigger] self.pool.slots@[t as int]).q is Some
                ==> self.pool.slots@[t as int].q->0 < 2 * self.chans@.len()
    }
}

/// Channels that are intact hold sound contents.
pub proof fn lemma_wf_sound<V>(s: Chans<V>)
    requires
        s.wf(),
    ensures
        s@.sound(),
{
    assert forall|c: usize| c < s@.chans.len() implies (#[trigger] s@.chans[c as int]).sound()
        && all_wait(s@.chans[c as int].sendq, s@.sudogs, c, true) && all_wait(
        s@.chans[c as int].recvq,
        s@.sudogs,
        c,
        false,
    ) by {
        let h = s.chans@[c as int];
        assert(h.wf(c, s.pool.slots@));
        assert forall|i: int| 0 <= i < h.sendq@.len() implies (#[trigger] h.sendq@[i])
            < s@.sudogs.len() && waits(s@.sudogs[h.sendq@[i] as int], c, true) by {
            assert(waits(s.pool.slots@[h.sendq@[i] as int], c, true));
        }
        assert forall|i: int| 0 <= i < h.recvq@.len() implies (#[trigger] h.recvq@[i])
            < s@.sudogs.len() && waits(s@.sudogs[h.recvq@[i] as int], c, false) by {
            assert(waits(s.pool.slots@[h.recvq@[i] as int], c, false));
        }
    }
}

/// Nothing about the queues changed but on the one of identity `id`.
pub open spec fn moved_on<V>(a: Seq<Sudog<V>>, b: Seq<Sudog<V>>, id: int) -> bool {
    &&& a.len() <= b.len()
    &&& forall|t: usize|
        t < a.len() && (#[trigger] a[t as int]).q is Some && a[t as int].q->0 != id ==> b[t as int]
            == a[t as int]
    &&& forall|t: usize|
        t < b.len() && (#[trigger] b[t as int]).q is Some && b[t as int].q->0 != id ==> t < a.len()
            && a[t as int].q == b[t as int].q
}

/// A queue stays intact while something happens on another one.
pub proof fn lemma_queue_frame<V>(
    q: WaitQ,
    id: int,
    a: Seq<Sudog<V>>,
    b: Seq<Sudog<V>>,
    c: usize,
    sends: bool,
    moved: int,
)
    requires
        queue_ok(q, id, a, c, sends),
        moved_on(a, b, moved),
        id != moved,
    ensures
        queue_ok(q, id, b, c, sends),
{
    q.lemma_frame(a, b);
    assert forall|i: int| 0 <= i < q@.len() implies waits(
        b[(#[trigger] q@[i]) as int],
        c,
        sends,
    ) by {
        assert(a[q@[i] as int].q == Some(q.id));
    }
}

/// All channels but one stay intact while something happens on a queue of it.
pub proof fn lemma_chans_frame<V>(
    chans: Seq<Hchan<V>>,
    a: Seq<Sudog<V>>,
    b: Seq<Sudog<V>>,
    c0: int,
    moved: int,
)
    requires
        forall|c: usize|
            c < chans.len() && c != c0 ==> (#[trigger] chans[c as int]).wf(c, a),
        moved_on(a, b, moved),
        moved == 2 * c0 || moved == 2 * c0 + 1,
    ensures
        forall|c: usize|
            c < chans.len() && c != c0 ==> (#[trigger] chans[c as int]).wf(c, b),
{
    assert forall|c: usize| c < chans.len() && c != c0 implies (#[trigger] chans[c as int]).wf(
        c,
        b,
    ) by {
        let h = chans[c as int];
        lemma_queue_frame(h.sendq, 2 * c, a, b, c, true, moved);
        lemma_queue_frame(h.recvq, 2 * c + 1, a, b, c, false, moved);
    }
}

/// Which sudog can be taken does not depend on links.
pub proof fn lemma_claim_ignores_links<V>(
    order: Seq<usize>,
    a: Seq<Sudog<V>>,
    b: Seq<Sudog<V>>,
    gs: Seq<G>,
    i: nat,
)
    requires
        a.len() == b.len(),
        forall|j: int| 0 <= j < order.len() ==> (#[trigger] order[j]) < a.len(),
        forall|t: int| 0 <= t < a.len() ==> same_payload(#[trigger] a[t], b[t]),
    ensures
        first_claimable(order, a, gs, i) == first_claimable(order, b, gs, i),
    decreases order.len() - i,
{
    if i < order.len() {
        assert(same_payload(a[order[i as int] as int], b[order[i as int] as int]));
        lemma_claim_ignores_links(order, a, b, gs, i + 1);
    }
}

/// The pool stays intact while sudogs that are not free change.
pub proof fn lemma_pool_frame<V>(before: SudogPool<V>, after: SudogPool<V>)
    requires
        before.wf(),
        after.vacant == before.vacant,
        after.central == before.central,
        after.locals == before.locals,
        after.place == before.place,
        after.slots@.len() == before.slots@.len(),
        forall|t: usize|
            t < before.slots@.len() && (#[trigger] before.slots@[t as int]).q is None
                && before.free(t) ==> after.slots@[t as int].q is None,
    ensures
        after.wf(),
        after@ == before@,
        forall|t: usize| #[trigger] after.free(t) <==> before.free(t),
{
    assert forall|s: usize| #[trigger] after.free(s) implies s < after.slots@.len()
        && after.slots@[s as int].q is None && after.lies_at(s, after.place@[s]) by {
        assert(before.free(s));
        assert(before.slots@[s as int].q is None);
    }
}

impl<V> Chans<V> {
    /// No channels, for `nprocs` processors.
    pub fn new(nprocs: usize) -> (s: Chans<V>)
        ensures
            s.wf(),
            s@.chans == Seq::<ChanView<V>>::empty(),
            s@.sudogs == Seq::<Sudog<V>>::empty(),
            s@.pool == (PoolView {
                nslots: 0,
                vacant: Seq::empty(),
                central: Seq::empty(),
                locals: Seq::new(nprocs as nat, |i: int| Seq::<usize>::empty()),
            }),
    {
        Chans { pool: SudogPool::new(nprocs), chans: Vec::new() }
    }

    /// Makes a channel whose buffer takes `cap` values.
    pub fn chan(&mut self, cap: usize) -> (r: (Sender, Receiver))
        requires
            old(self).wf(),
            2 * old(self)@.chans.len() + 2 <= usize::MAX,
        ensures
            final(self).wf(),
            r.0.chan == old(self)@.chans.len(),
            r.1.chan == old(self)@.chans.len(),
            final(self)@ == (ChansView {
                chans: old(self)@.chans.push(ChanView::fresh(cap)),
                ..old(self)@
            }),
    {
        let c: usize = self.chans.len();
        let h: Hchan<V> = Hchan {
            cap,
            closed: false,
            buf: VecDeque::new(),
            sendq: WaitQ::new(2 * c),
            recvq: WaitQ::new(2 * c + 1),
        };
        self.chans.push(h);
        proof {
            let slots = self.pool.slots@;
            assert forall|k: usize| k < self.chans@.len() implies (
            #[trigger] self.chans@[k as int]).wf(k, slots) by {
                if k < c {
                    assert(old(self).chans@[k as int].wf(k, slots));
                }
            }
        }
        (Sender { chan: c }, Receiver { chan: c })
    }

    /// Takes, on one side of channel `c`, the first goroutine that can be
    /// claimed; those before it, which others have claimed, leave the queue.
    pub fn dequeue_waiter(&mut self, gs: &mut Vec<G>, c: usize, sends: bool) -> (r: Option<usize>)
        requires
            old(self).wf(),
            old(self)@.names(old(gs)@.len()),
            c < old(self)@.chans.len(),
        ensures
            final(self).wf(),
            final(self)@.names(final(gs)@.len()),
            final(gs)@.len() == old(gs)@.len(),
            final(self).chans@.len() == old(self).chans@.len(),
            forall|t: usize| #[trigger] final(self).pool.in_use(t) <==> old(self).pool.in_use(t),
            ({
                let ch = old(self)@.chans[c as int];
                let q = ch.queue(sends);
                let k = first_claimable(q, old(self)@.sudogs, old(gs)@, 0);
                &&& k == q.len() ==> {
                    &&& r is None
                    &&& final(self)@ == old(self)@.with_chan(
                        c as int,
                        ch.with_queue(sends, Seq::empty()),
                    )
                    &&& final(gs)@ == old(gs)@
                }
                &&& k < q.len() ==> {
                    &&& r == Some(q[k as int])
                    &&& final(self)@ == old(self)@.with_chan(
                        c as int,
                        ch.with_queue(sends, q.skip(k as int + 1)),
                    )
                    &&& final(gs)@ == claimed(old(self)@.sudogs[q[k as int] as int], old(gs)@)
                    &&& waits(old(self)@.sudogs[q[k as int] as int], c, sends)
                    &&& final(self).pool.slots@[q[k as int] as int].q is None
                    &&& final(self).pool.in_use(q[k as int])
                }
                &&& k <= q.len()
            }),
    {
        let ghost a = self.pool.slots@;
        let ghost pool0 = self.pool;
        let ghost h0 = self.chans@[c as int];
        let ghost o = if sends {
            h0.sendq
        } else {
            h0.recvq
        };
        let ghost moved = if sends {
            2 * c as int
        } else {
            2 * c as int + 1
        };
        let ghost k = first_claimable(o@, a, gs@, 0);
        proof {
            assert(h0.wf(c, a));
            let u = self@.sudogs;
            assert forall|t: int| 0 <= t < a.len() implies same_payload(#[trigger] a[t], u[t]) by {
                assert(u[t] == a[t].unlinked());
            }
            lemma_claim_ignores_links(o@, a, u, gs@, 0);
            lemma_first_claimable(o@, a, gs@, 0);
            assert forall|i: int| 0 <= i < o@.len() && a[(#[trigger] o@[i]) as int].g is Some implies a[o@[i] as int].g->0
                < gs@.len() by {
                assert(u[o@[i] as int].g == a[o@[i] as int].g);
            }
        }
        let r: Option<usize> = if sends {
            self.chans[c].sendq.dequeue(&mut self.pool.slots, gs)
        } else {
            self.chans[c].recvq.dequeue(&mut self.pool.slots, gs)
        };
        proof {
            let b = self.pool.slots@;
            let h = self.chans@[c as int];
            assert(moved_on(a, b, moved));
            lemma_pool_frame(pool0, self.pool);
            lemma_chans_frame(old(self).chans@, a, b, c as int, moved);
            if sends {
                lemma_queue_frame(h0.recvq, 2 * c + 1, a, b, c, false, moved);
            } else {
                lemma_queue_frame(h0.sendq, 2 * c as int, a, b, c, true, moved);
            }
            let q = if sends {
                h.sendq
            } else {
                h.recvq
            };
            assert(queue_ok(q, moved, b, c, sends)) by {
                assert forall|i: int| 0 <= i < q@.len() implies waits(
                    b[(#[trigger] q@[i]) as int],
                    c,
                    sends,
                ) by {
                    assert(q@[i] == o@[k as int + 1 + i]);
                    assert(waits(a[o@[k as int + 1 + i] as int], c, sends));
                    assert(same_payload(b[q@[i] as int], a[q@[i] as int]));
                }
            }
            assert(h.wf(c, b));
            assert forall|x: usize| x < self.chans@.len() implies (
            #[trigger] self.chans@[x as int]).wf(x, b) by {
                if x != c {
                    assert(old(self).chans@[x as int].wf(x, b));
                }
            }
            assert(self@.sudogs =~= old(self)@.sudogs) by {
                assert forall|t: int| 0 <= t < a.len() implies (#[trigger] b[t]).unlinked()
                    == a[t].unlinked() by {
                    assert(same_payload(b[t], a[t]));
                }
            }
            let ch = old(self)@.chans[c as int];
            assert(self@.chans =~= old(self)@.chans.update(
                c as int,
                ch.with_queue(sends, q@),
            ));
            if k < o@.len() {
                let sg = o@[k as int];
                assert(waits(a[sg as int], c, sends));
                assert(b[sg as int] == a[sg as int].unlinked());
                assert(!pool0.free(sg));
            }
        }
        r
    }

    /// Puts `new` in the place of sudog `sg`, which is in use and on no queue.
    pub fn replace_sudog(&mut self, sg: usize, new: Sudog<V>) -> (r: Sudog<V>)
        requires
            old(self).wf(),
            old(self).pool.in_use(sg),
            old(self).pool.slots@[sg as int].q is None,
            new == new.unlinked(),
        ensures
            final(self).wf(),
            final(self)@ == old(self)@.with_sudog(sg as int, new),
            final(self).chans == old(self).chans,
            r.unlinked() == old(self)@.sudogs[sg as int],
            forall|t: usize| #[trigger] final(self).pool.in_use(t) <==> old(self).pool.in_use(t),
            forall|t: int|
                0 <= t < old(self).pool.slots@.len() ==> (#[trigger] final(self).pool.slots@[t]).q
                    == old(self).pool.slots@[t].q,
    {
        let ghost pool0 = self.pool;
        let ghost a = self.pool.slots@;
        let mut s: Sudog<V> = new;
        std::mem::swap(&mut s, &mut self.pool.slots[sg]);
        proof {
            let b = self.pool.slots@;
            assert(b =~= a.update(sg as int, new));
            lemma_pool_frame(pool0, self.pool);
            assert(moved_on(a, b, -1));
            assert forall|c: usize| c < self.chans@.len() implies (
            #[trigger] self.chans@[c as int]).wf(c, b) by {
                let h = self.chans@[c as int];
                assert(h.wf(c, a));
                lemma_queue_frame(h.sendq, 2 * c as int, a, b, c, true, -1);
                lemma_queue_frame(h.recvq, 2 * c + 1, a, b, c, false, -1);
            }
            assert(self@.sudogs =~= old(self)@.sudogs.update(sg as int, new));
        }
        s
    }

    /// Lets goroutine `gp` wait on one side of channel `c`, as part of a
    /// `select`.
    pub fn enqueue_waiter(
        &mut self,
        c: usize,
        sends: bool,
        p: Option<usize>,
        gp: usize,
        elem: Option<V>,
    ) -> (sg: usize)
        requires
            old(self).wf(),
            c < old(self)@.chans.len(),
            old(self)@.chans[c as int].blocked(sends),
            opt_below(p, old(self)@.pool.locals.len()),
            sends ==> elem is Some,
        ensures
            final(self).wf(),
            sg == old(self)@.pool.acquired(p),
            final(self)@ == old(self)@.after_enqueue(c, sends, p, gp, elem),
            final(self)@.pool.locals.len() == old(self)@.pool.locals.len(),
            !old(self).pool.in_use(sg),
            sg < final(self)@.sudogs.len(),
            forall|t: usize| #[trigger]
                final(self).pool.in_use(t) <==> t == sg || old(self).pool.in_use(t),
    {
        let ghost a = self.pool.slots@;
        let ghost chans0 = self.chans@;
        let ghost h0 = self.chans@[c as int];
        assert(h0.wf(c, a));
        assert(h0@ == self@.chans[c as int]);
        let sg: usize = self.pool.acquire_sudog(p);
        let ghost pool1 = self.pool;
        let ghost a1 = self.pool.slots@;
        proof {
            assert(pool1.in_use(sg));
            assert(old(self).pool.slots.len() == a.len());
            assert(old(self).pool@.nslots == a.len() && pool1@.nslots == a1.len());
            assert(sg >= a.len() ==> sg == a.len());
            assert(a1.len() == (if sg < a.len() {
                a.len()
            } else {
                a.len() + 1
            }));
            assert(sg < a.len() ==> a[sg as int].q is None) by {
                if sg < a.len() {
                    assert(!old(self).pool.in_use(sg));
                    assert(old(self).pool.free(sg));
                }
            }
            assert forall|t: usize| t < a1.len() && (#[trigger] a1[t as int]).q is Some implies t
                < a.len() && a[t as int] == a1[t as int] by {
                assert(t != sg);
            }
            assert(moved_on(a, a1, -1));
        }
        self.pool.slots[sg].g = Some(gp);
        self.pool.slots[sg].elem = Elem::Slot(elem);
        self.pool.slots[sg].is_select = true;
        self.pool.slots[sg].success = false;
        self.pool.slots[sg].c = Some(c);
        let ghost a2 = self.pool.slots@;
        let ghost pool2 = self.pool;
        let ghost x = ChansView::waiting(gp, c, elem);
        proof {
            assert(a2 =~= a1.update(sg as int, x));
            assert forall|t: usize| t < a2.len() && (#[trigger] a2[t as int]).q is Some implies t
                < a.len() && a[t as int] == a2[t as int] by {
                assert(t != sg);
                assert(a1[t as int].q is Some);
            }
            assert forall|t: usize| t < a.len() && (#[trigger] a[t as int]).q is Some implies a2[t as int]
                == a[t as int] by {
                assert(t != sg);
            }
            assert(moved_on(a, a2, -1));
            lemma_pool_frame(pool1, pool2);
            lemma_queue_frame(h0.sendq, 2 * c as int, a, a2, c, true, -1);
            lemma_queue_frame(h0.recvq, 2 * c + 1, a, a2, c, false, -1);
        }
        let ghost moved = if sends {
            2 * c as int
        } else {
            2 * c as int + 1
        };
        if sends {
            self.chans[c].sendq.enqueue(&mut self.pool.slots, sg);
        } else {
            self.chans[c].recvq.enqueue(&mut self.pool.slots, sg);
        }
        proof {
            let b = self.pool.slots@;
            let h = self.chans@[c as int];
            let o = if sends {
                h0.sendq
            } else {
                h0.recvq
            };
            let q = if sends {
                h.sendq
            } else {
                h.recvq
            };
            assert(moved_on(a2, b, moved));
            assert forall|t: usize| t < pool2.slots@.len() && (
            #[trigger] pool2.slots@[t as int]).q is None && pool2.free(t) implies self.pool.slots@[t as int].q is None by {
                assert(pool1.in_use(sg));
                assert(t != sg);
            }
            lemma_pool_frame(pool2, self.pool);
            assert forall|k: usize| k < chans0.len() && k != c implies (
            #[trigger] chans0[k as int]).wf(k, a2) by {
                let y = chans0[k as int];
                assert(y.wf(k, a));
                lemma_queue_frame(y.sendq, 2 * k as int, a, a2, k, true, -1);
                lemma_queue_frame(y.recvq, 2 * k + 1, a, a2, k, false, -1);
            }
            lemma_chans_frame(chans0, a2, b, c as int, moved);
            if sends {
                lemma_queue_frame(h0.recvq, 2 * c + 1, a2, b, c, false, moved);
            } else {
                lemma_queue_frame(h0.sendq, 2 * c as int, a2, b, c, true, moved);
            }
            assert(queue_ok(q, moved, b, c, sends)) by {
                assert forall|i: int| 0 <= i < q@.len() implies waits(
                    b[(#[trigger] q@[i]) as int],
                    c,
                    sends,
                ) by {
                    assert(same_payload(b[q@[i] as int], a2[q@[i] as int]));
                    if i < o@.len() {
                        assert(q@[i] == o@[i]);
                        assert(waits(a2[o@[i] as int], c, sends));
                    }
                }
            }
            assert(h.wf(c, b));
            assert forall|k: usize| k < self.chans@.len() implies (
            #[trigger] self.chans@[k as int]).wf(k, b) by {
                if k != c {
                    assert(chans0[k as int].wf(k, b));
                }
            }
            let target = old(self)@.after_enqueue(c, sends, p, gp, elem);
            assert forall|t: int| 0 <= t < b.len() implies (#[trigger] b[t]).unlinked()
                == a2[t].unlinked() by {
                assert(same_payload(b[t], a2[t]));
            }
            assert(self@.sudogs =~= target.sudogs) by {
                assert forall|t: int| 0 <= t < b.len() implies #[trigger] self@.sudogs[t]
                    == target.sudogs[t] by {
                    assert(b[t].unlinked() == a2[t].unlinked());
                    if t < a.len() && t != sg {
                        assert(a1[t] == a[t]);
                    }
                }
            }
            assert(self@.chans =~= target.chans);
            assert(self@.pool == target.pool);
            assert forall|t: usize| #[trigger] self.pool.in_use(t) <==> t == sg || old(self).pool.in_use(t) by {
                assert(pool1.in_use(t) <==> t == sg || old(self).pool.in_use(t));
                assert(pool2.free(t) <==> pool1.free(t));
                assert(self.pool.free(t) <==> pool2.free(t));
            }
        }
        sg
    }

    /// Takes sudog `sg` off one side of channel `c`; says whether it was there.
    pub fn remove_waiter(&mut self, c: usize, sends: bool, sg: usize) -> (r: bool)
        requires
            old(self).wf(),
            c < old(self)@.chans.len(),
            sg < old(self)@.sudogs.len(),
        ensures
            final(self).wf(),
            r == old(self)@.chans[c as int].queue(sends).contains(sg),
            ({
                let ch = old(self)@.chans[c as int];
                let q = ch.queue(sends);
                final(self)@ == old(self)@.with_chan(
                    c as int,
                    ch.with_queue(
                        sends,
                        if r {
                            q.remove(q.index_of(sg))
                        } else {
                            q
                        },
                    ),
                )
            }),
            forall|t: usize| #[trigger] final(self).pool.in_use(t) <==> old(self).pool.in_use(t),
    {
        let ghost a = self.pool.slots@;
        let ghost pool0 = self.pool;
        let ghost h0 = self.chans@[c as int];
        assert(h0.wf(c, a));
        assert(h0@ == self@.chans[c as int]);
        let ghost moved = if sends {
            2 * c as int
        } else {
            2 * c as int + 1
        };
        let r: bool = if sends {
            self.chans[c].sendq.dequeue_sudog(&mut self.pool.slots, sg)
        } else {
            self.chans[c].recvq.dequeue_sudog(&mut self.pool.slots, sg)
        };
        proof {
            let b = self.pool.slots@;
            let h = self.chans@[c as int];
            let o = if sends {
                h0.sendq
            } else {
                h0.recvq
            };
            let q = if sends {
                h.sendq
            } else {
                h.recvq
            };
            if r {
                let j = o@.index_of(sg);
                assert(o@[j] == sg);
                assert(a[o@[j] as int].q == Some(o.id));
            }
            assert(moved_on(a, b, moved));
            lemma_pool_frame(pool0, self.pool);
            lemma_chans_frame(old(self).chans@, a, b, c as int, moved);
            if sends {
                lemma_queue_frame(h0.recvq, 2 * c + 1, a, b, c, false, moved);
            } else {
                lemma_queue_frame(h0.sendq, 2 * c as int, a, b, c, true, moved);
            }
            assert(queue_ok(q, moved, b, c, sends)) by {
                assert forall|i: int| 0 <= i < q@.len() implies waits(
                    b[(#[trigger] q@[i]) as int],
                    c,
                    sends,
                ) by {
                    let j = if r && i >= o@.index_of(sg) {
                        i + 1
                    } else {
                        i
                    };
                    assert(q@[i] == o@[j]);
                    assert(waits(a[o@[j] as int], c, sends));
                    assert(same_payload(b[q@[i] as int], a[q@[i] as int]));
                }
            }
            assert(h.wf(c, b));
            assert forall|k: usize| k < self.chans@.len() implies (
            #[trigger] self.chans@[k as int]).wf(k, b) by {
                if k != c {
                    assert(old(self).chans@[k as int].wf(k, b));
                }
            }
            assert(self@.sudogs =~= old(self)@.sudogs) by {
                assert forall|t: int| 0 <= t < a.len() implies (#[trigger] b[t]).unlinked()
                    == a[t].unlinked() by {
                    assert(same_payload(b[t], a[t]));
                }
            }
            let ch = old(self)@.chans[c as int];
            assert(self@.chans =~= old(self)@.chans.update(
                c as int,
                ch.with_queue(sends, q@),
            ));
        }
        r
    }
}

/// The goroutines that waited on one side of a channel, after it was closed.
pub struct Released<V> {
    pub sudogs: Seq<Sudog<V>>,
    pub gs: Seq<G>,
    /// Those that are to be made ready, in order.
    pub woken: Seq<usize>,
}

/// Whoever waits in `q`, and is not claimed by another operation, is claimed and
/// told that its own did not go through.
pub open spec fn released<V>(q: Seq<usize>, sudogs: Seq<Sudog<V>>, gs: Seq<G>) -> Released<V>
    decreases q.len(),
{
    let k = first_claimable(q, sudogs, gs, 0);
    if q.len() == 0 || k >= q.len() {
        Released { sudogs, gs, woken: Seq::empty() }
    } else {
        let sg = q[k as int];
        let s = sudogs[sg as int];
        let g = s.g->0 as int;
        let h = claimed(s, gs);
        let r = released(
            q.skip(k as int + 1),
            sudogs.update(sg as int, Sudog { success: false, ..s }),
            h.update(g, G { param: Some(sg), ..h[g] }),
        );
        Released { woken: seq![s.g->0] + r.woken, ..r }
    }
}

impl<V> ChansView<V> {
    /// Channel `c` with one side set free.
    pub open spec fn set_free(self, gs: Seq<G>, c: int, sends: bool) -> (ChansView<V>, Seq<G>, Seq<
        usize,
    >) {
        let ch = self.chans[c];
        let r = released(ch.queue(sends), self.sudogs, gs);
        (
            ChansView {
                sudogs: r.sudogs,
                ..self.with_chan(c, ch.with_queue(sends, Seq::empty()))
            },
            r.gs,
            r.woken,
        )
    }

    /// Channel `c` is closed: nobody waits on it any more.
    pub open spec fn after_close(self, gs: Seq<G>, c: int) -> (ChansView<V>, Seq<G>, Seq<usize>) {
        if self.chans[c].closed {
            (self, gs, Seq::empty())
        } else {
            let v = self.with_chan(c, ChanView { closed: true, ..self.chans[c] });
            let (a, gs_a, woken_a) = v.set_free(gs, c, false);
            let (b, gs_b, woken_b) = a.set_free(gs_a, c, true);
            (b, gs_b, woken_a + woken_b)
        }
    }
}

impl<V> Chans<V> {
    /// Sets free whoever waits on one side of channel `c`.
    fn release_side(&mut self, gs: &mut Vec<G>, c: usize, sends: bool, woken: &mut Vec<usize>)
        requires
            old(self).wf(),
            old(self)@.names(old(gs)@.len()),
            c < old(self)@.chans.len(),
        ensures
            final(self).wf(),
            final(self)@.names(final(gs)@.len()),
            final(gs)@.len() == old(gs)@.len(),
            forall|t: usize| #[trigger] final(self).pool.in_use(t) <==> old(self).pool.in_use(t),
            ({
                let r = old(self)@.set_free(old(gs)@, c as int, sends);
                &&& final(self)@ == r.0
                &&& final(gs)@ == r.1
                &&& final(woken)@ == old(woken)@ + r.2
            }),
            forall|i: int|
                old(woken)@.len() <= i < final(woken)@.len() ==> (#[trigger] final(woken)@[i])
                    < old(gs)@.len(),
    {
        let ghost v0 = self@;
        let ghost gs0 = gs@;
        loop
            invariant
                self.wf(),
                self@.names(gs@.len()),
                gs@.len() == gs0.len(),
                gs0 == old(gs)@,
                v0 == old(self)@,
                c < self@.chans.len(),
                self@.chans.len() == v0.chans.len(),
                forall|t: usize| #[trigger]
                    self.pool.in_use(t) <==> old(self).pool.in_use(t),
                self@.pool == v0.pool,
                self@.chans == v0.chans.update(
                    c as int,
                    v0.chans[c as int].with_queue(sends, self@.chans[c as int].queue(sends)),
                ),
                ({
                    let r = released(self@.chans[c as int].queue(sends), self@.sudogs, gs@);
                    let r0 = released(v0.chans[c as int].queue(sends), v0.sudogs, gs0);
                    &&& r.sudogs == r0.sudogs
                    &&& r.gs == r0.gs
                    &&& woken@ + r.woken == old(woken)@ + r0.woken
                }),
                old(woken)@.len() <= woken@.len(),
                forall|i: int|
                    old(woken)@.len() <= i < woken@.len() ==> (#[trigger] woken@[i]) < gs0.len(),
            ensures
                ({
                    let r = v0.set_free(gs0, c as int, sends);
                    &&& self@ == r.0
                    &&& gs@ == r.1
                    &&& woken@ == old(woken)@ + r.2
                }),
            decreases self@.chans[c as int].queue(sends).len(),
        {
            let ghost v1 = self@;
            let ghost gs1 = gs@;
            let ghost w1 = woken@;
            let ghost q = v1.chans[c as int].queue(sends);
            match self.dequeue_waiter(gs, c, sends) {
                None => {
                    proof {
                        let r = released(q, v1.sudogs, gs1);
                        assert(r.woken =~= Seq::empty());
                        assert(w1 + r.woken =~= w1);
                        let target = v0.set_free(gs0, c as int, sends);
                        assert(self@.chans =~= target.0.chans);
                    }
                    break ;
                },
                Some(sg) => {
                    let gp: usize = match self.pool.slots[sg].g {
                        Some(gp) => gp,
                        None => 0,
                    };
                    let ghost mid = self@;
                    assert(mid.sudogs[sg as int].g == Some(gp));
                    let mut s: Sudog<V> = self.replace_sudog(sg, Sudog::zeroed());
                    s.success = false;
                    s.next = None;
                    s.prev = None;
                    s.q = None;
                    let _ = self.replace_sudog(sg, s);
                    gs[gp].param = Some(sg);
                    woken.push(gp);
                    proof {
                        let k = first_claimable(q, v1.sudogs, gs1, 0);
                        let x = v1.sudogs[sg as int];
                        let r = released(q, v1.sudogs, gs1);
                        let r1 = released(
                            q.skip(k as int + 1),
                            self@.sudogs,
                            gs@,
                        );
                        assert(self@.sudogs =~= v1.sudogs.update(
                            sg as int,
                            Sudog { success: false, ..x },
                        ));
                        assert(self@.chans == mid.chans);
                        assert(self@.chans[c as int].queue(sends) == q.skip(k as int + 1));
                        assert(r.woken == seq![gp] + r1.woken);
                        assert(w1 + (seq![gp] + r1.woken) =~= w1.push(gp) + r1.woken);
                        assert(self@.chans =~= v0.chans.update(
                            c as int,
                            v0.chans[c as int].with_queue(
                                sends,
                                self@.chans[c as int].queue(sends),
                            ),
                        ));
                    }
                },
            }
        }
    }

    /// Closes channel `c`.  Gives back the goroutines that waited on it and are
    /// now to be made ready, receivers first.
    pub fn close(&mut self, gs: &mut Vec<G>, c: usize) -> (woken: Vec<usize>)
        requires
            old(self).wf(),
            old(self)@.names(old(gs)@.len()),
            c < old(self)@.chans.len(),
        ensures
            final(self).wf(),
            final(self)@.names(final(gs)@.len()),
            final(gs)@.len() == old(gs)@.len(),
            final(self)@.chans[c as int].closed,
            (final(self)@, final(gs)@, woken@) == old(self)@.after_close(old(gs)@, c as int),
            !old(self)@.chans[c as int].closed ==> forall|g: usize|
                g < old(gs)@.len() ==> (#[trigger] woken@.contains(g) <==> waits_on_channel(
                    old(self)@,
                    old(gs)@,
                    c as int,
                    g,
                )),
            forall|i: int| 0 <= i < woken@.len() ==> (#[trigger] woken@[i]) < old(gs)@.len(),
            forall|t: usize| #[trigger] final(self).pool.in_use(t) <==> old(self).pool.in_use(t),
    {
        let mut woken: Vec<usize> = Vec::new();
        if self.chans[c].closed {
            return woken;
        }
        let ghost v0 = self@;
        let ghost closing = v0.with_chan(c as int, ChanView { closed: true, ..v0.chans[c as int] });
        self.release_side(gs, c, false, &mut woken);
        let ghost gs1 = gs@;
        let ghost w1 = woken@;
        let ghost v1 = self@;
        self.release_side(gs, c, true, &mut woken);
        let ghost open = *self;
        assert(open@.chans.len() == open.chans@.len());
        self.chans[c].closed = true;
        proof {
            assert forall|k: usize| k < self.chans@.len() implies (
            #[trigger] self.chans@[k as int]).wf(k, self.pool.slots@) by {
                assert(open.chans@[k as int].wf(k, open.pool.slots@));
                assert(open@.chans[c as int] == open.chans@[c as int]@);
            }
            let a = closing.set_free(old(gs)@, c as int, false);
            assert(a.1 == gs1);
            assert(w1 =~= a.2);
            let b = a.0.set_free(a.1, c as int, true);
            assert(open@.chans[c as int] == open.chans@[c as int]@);
            assert(self@.chans =~= open@.chans.update(
                c as int,
                ChanView { closed: true, ..open@.chans[c as int] },
            ));
            assert(self@.chans =~= b.0.chans);
            assert(self@.pool == b.0.pool);
            assert(self@.sudogs =~= b.0.sudogs);
            assert(self@ =~= b.0);
            lemma_wf_sound(*old(self));
            assert forall|g: usize| g < old(gs)@.len() implies (#[trigger] woken@.contains(g)
                <==> waits_on_channel(old(self)@, old(gs)@, c as int, g)) by {
                closing_wakes_everyone_who_waits(old(self)@, old(gs)@, c as int, g);
            }
        }
        woken
    }
}

/// Nobody waits on a channel that was closed, and the buffered values stay.
pub proof fn closing_sets_everyone_free<V>(v: ChansView<V>, gs: Seq<G>, c: int)
    requires
        0 <= c < v.chans.len(),
        !v.chans[c].closed,
    ensures
        ({
            let w = v.after_close(gs, c).0.chans[c];
            &&& w.closed
            &&& w.sendq.len() == 0
            &&& w.recvq.len() == 0
            &&& w.buf == v.chans[c].buf
        }),
        forall|k: int|
            0 <= k < v.chans.len() && k != c ==> #[trigger] v.after_close(gs, c).0.chans[k]
                == v.chans[k],
{
}

/// The position of the first sudog that can be taken is within the queue.
pub proof fn lemma_first_claimable<V>(
    order: Seq<usize>,
    slots: Seq<Sudog<V>>,
    gs: Seq<G>,
    i: nat,
)
    requires
        i <= order.len(),
    ensures
        i <= first_claimable(order, slots, gs, i) <= order.len(),
        forall|j: int|
            i <= j < first_claimable(order, slots, gs, i) ==> !claimable(
                slots[(#[trigger] order[j]) as int],
                gs,
            ),
        first_claimable(order, slots, gs, i) < order.len() ==> claimable(
            slots[order[first_claimable(order, slots, gs, i) as int] as int],
            gs,
        ),
    decreases order.len() - i,
{
    if i < order.len() && !claimable(slots[order[i as int] as int], gs) {
        lemma_first_claimable(order, slots, gs, i + 1);
    }
}

/// Goroutine `g` waits in `q`, and no other operation has claimed it.
pub open spec fn waits_unclaimed<V>(
    q: Seq<usize>,
    sudogs: Seq<Sudog<V>>,
    gs: Seq<G>,
    g: usize,
) -> bool {
    exists|j: int|
        0 <= j < q.len() && sudogs[(#[trigger] q[j]) as int].g == Some(g) && (
        sudogs[q[j] as int].is_select ==> gs[g as int].selectdone == 0)
}

/// Whoever is in `q` waits by a `select`.
pub open spec fn all_select<V>(q: Seq<usize>, sudogs: Seq<Sudog<V>>) -> bool {
    forall|j: int| 0 <= j < q.len() ==> sudogs[(#[trigger] q[j]) as int].is_select
}

proof fn lemma_released<V>(q: Seq<usize>, sudogs: Seq<Sudog<V>>, gs: Seq<G>)
    requires
        q.no_duplicates(),
        forall|j: int|
            0 <= j < q.len() ==> (#[trigger] q[j]) < sudogs.len() && sudogs[q[j] as int].g is Some
                && sudogs[q[j] as int].g->0 < gs.len(),
    ensures
        ({
            let r = released(q, sudogs, gs);
            &&& r.sudogs.len() == sudogs.len()
            &&& r.gs.len() == gs.len()
            &&& forall|t: int|
                0 <= t < sudogs.len() ==> #[trigger] r.sudogs[t] == (Sudog {
                    success: r.sudogs[t].success,
                    ..sudogs[t]
                })
            &&& forall|t: usize|
                t < sudogs.len() && !q.contains(t) ==> #[trigger] r.sudogs[t as int]
                    == sudogs[t as int]
            &&& forall|g: usize|
                g < gs.len() ==> (#[trigger] r.woken.contains(g) <==> waits_unclaimed(
                    q,
                    sudogs,
                    gs,
                    g,
                ))
            &&& forall|i: int| 0 <= i < r.woken.len() ==> (#[trigger] r.woken[i]) < gs.len()
            &&& forall|g: usize|
                g < gs.len() && !waits_unclaimed(q, sudogs, gs, g) ==> #[trigger] r.gs[g as int]
                    == gs[g as int]
            &&& forall|g: usize|
                g < gs.len() && waits_unclaimed(q, sudogs, gs, g) ==> ({
                    let h = #[trigger] r.gs[g as int];
                    &&& h.param is Some && q.contains(h.param->0)
                    &&& sudogs[h.param->0 as int].g == Some(g)
                    &&& !r.sudogs[h.param->0 as int].success
                    &&& h == (G {
                        param: h.param,
                        selectdone: h.selectdone,
                        ..gs[g as int]
                    })
                    &&& all_select(q, sudogs) ==> h.selectdone == 1
                })
            &&& all_select(q, sudogs) ==> r.woken.no_duplicates()
        }),
    decreases q.len(),
{
    let k = first_claimable(q, sudogs, gs, 0);
    lemma_first_claimable(q, sudogs, gs, 0);
    let r = released(q, sudogs, gs);
    if q.len() > 0 && k < q.len() {
        let sg = q[k as int];
        let s = sudogs[sg as int];
        let g0 = s.g->0;
        let h = claimed(s, gs);
        let rest = q.skip(k as int + 1);
        let sudogs2 = sudogs.update(sg as int, Sudog { success: false, ..s });
        let gs2 = h.update(g0 as int, G { param: Some(sg), ..h[g0 as int] });
        assert forall|j: int| 0 <= j < rest.len() implies (#[trigger] rest[j]) < sudogs2.len()
            && sudogs2[rest[j] as int] == sudogs[rest[j] as int] && sudogs2[rest[j] as int].g is Some
            && sudogs2[rest[j] as int].g->0 < gs2.len() && q.contains(rest[j]) && rest[j] != sg by {
            assert(rest[j] == q[j + k + 1]);
        }
        lemma_released(rest, sudogs2, gs2);
        let r2 = released(rest, sudogs2, gs2);
        assert(r.woken == seq![g0] + r2.woken);
        assert(!rest.contains(sg)) by {
            if rest.contains(sg) {
                let i = rest.index_of(sg);
                assert(rest[i] != sg);
            }
        }
        assert forall|g: usize| g < gs.len() && g != g0 implies (waits_unclaimed(q, sudogs, gs, g)
            <==> waits_unclaimed(rest, sudogs2, gs2, g)) by {
            if waits_unclaimed(q, sudogs, gs, g) {
                let j = choose|j: int|
                    0 <= j < q.len() && sudogs[(#[trigger] q[j]) as int].g == Some(g) && (
                    sudogs[q[j] as int].is_select ==> gs[g as int].selectdone == 0);
                if j < k {
                    assert(!claimable(sudogs[q[j] as int], gs));
                } else {
                    assert(j != k);
                    assert(rest[j - k - 1] == q[j]);
                }
            }
            if waits_unclaimed(rest, sudogs2, gs2, g) {
                let j = choose|j: int|
                    0 <= j < rest.len() && sudogs2[(#[trigger] rest[j]) as int].g == Some(g) && (
                    sudogs2[rest[j] as int].is_select ==> gs2[g as int].selectdone == 0);
                assert(q[j + k + 1] == rest[j]);
            }
        }
        assert(waits_unclaimed(q, sudogs, gs, g0)) by {
            assert(q[k as int] == sg);
        }
        assert forall|g: usize| g < gs.len() implies (#[trigger] r.woken.contains(g)
            <==> waits_unclaimed(q, sudogs, gs, g)) by {
            if g == g0 {
                assert(r.woken[0] == g0);
            } else {
                if r2.woken.contains(g) {
                    let i = r2.woken.index_of(g);
                    assert(r.woken[i + 1] == g);
                }
                if r.woken.contains(g) {
                    let i = r.woken.index_of(g);
                    assert(i > 0);
                    assert(r2.woken[i - 1] == g);
                    assert(r2.woken.contains(g));
                }
            }
        }
        assert forall|i: int| 0 <= i < r.woken.len() implies (#[trigger] r.woken[i]) < gs.len() by {
            if i > 0 {
                assert(r.woken[i] == r2.woken[i - 1]);
            }
        }
        assert forall|t: int| 0 <= t < sudogs.len() implies #[trigger] r.sudogs[t] == (Sudog {
            success: r.sudogs[t].success,
            ..sudogs[t]
        }) by {
            assert(r2.sudogs[t] == (Sudog { success: r2.sudogs[t].success, ..sudogs2[t] }));
        }
        assert forall|t: usize| t < sudogs.len() && !q.contains(
            t,
        ) implies #[trigger] r.sudogs[t as int] == sudogs[t as int] by {
            assert(q.contains(sg));
            if rest.contains(t) {
                let i = rest.index_of(t);
                assert(q.contains(rest[i]));
            }
        }
        assert forall|g: usize| g < gs.len() && waits_unclaimed(q, sudogs, gs, g) implies ({
            let h = #[trigger] r.gs[g as int];
            &&& h.param is Some && q.contains(h.param->0)
            &&& sudogs[h.param->0 as int].g == Some(g)
            &&& !r.sudogs[h.param->0 as int].success
            &&& h == (G { param: h.param, selectdone: h.selectdone, ..gs[g as int] })
            &&& all_select(q, sudogs) ==> h.selectdone == 1
        }) by {
            if all_select(q, sudogs) {
                assert forall|j: int| 0 <= j < rest.len() implies sudogs2[(
                #[trigger] rest[j]) as int].is_select by {
                    assert(rest[j] == q[j + k + 1]);
                }
                assert(s.is_select);
            }
            if waits_unclaimed(rest, sudogs2, gs2, g) {
                let hh = r2.gs[g as int];
                assert(rest.contains(hh.param->0));
                let i = rest.index_of(hh.param->0);
                assert(q.contains(rest[i]));
            } else {
                assert(g == g0);
                assert(r2.gs[g as int] == gs2[g as int]);
                assert(q.contains(sg));
                assert(r2.sudogs[sg as int] == sudogs2[sg as int]);
            }
        }
        if all_select(q, sudogs) {
            assert forall|j: int| 0 <= j < rest.len() implies sudogs2[(
            #[trigger] rest[j]) as int].is_select by {
                assert(rest[j] == q[j + k + 1]);
            }
            assert(s.is_select);
            assert(!waits_unclaimed(rest, sudogs2, gs2, g0)) by {
                if waits_unclaimed(rest, sudogs2, gs2, g0) {
                    let j = choose|j: int|
                        0 <= j < rest.len() && sudogs2[(#[trigger] rest[j]) as int].g == Some(g0)
                            && (sudogs2[rest[j] as int].is_select ==> gs2[g0 as int].selectdone
                            == 0);
                    assert(sudogs2[rest[j] as int].is_select);
                }
            }
            assert(!r2.woken.contains(g0));
            assert forall|i: int, j: int|
                0 <= i < r.woken.len() && 0 <= j < r.woken.len() && i != j implies r.woken[i]
                != r.woken[j] by {
                if i > 0 && j > 0 {
                    assert(r.woken[i] == r2.woken[i - 1] && r.woken[j] == r2.woken[j - 1]);
                } else if i > 0 {
                    assert(r.woken[i] == r2.woken[i - 1]);
                    assert(r2.woken.contains(r.woken[i]));
                } else {
                    assert(r.woken[j] == r2.woken[j - 1]);
                    assert(r2.woken.contains(r.woken[j]));
                }
            }
        }
    } else {
        assert forall|g: usize| g < gs.len() implies !waits_unclaimed(q, sudogs, gs, g) by {
            if waits_unclaimed(q, sudogs, gs, g) {
                let j = choose|j: int|
                    0 <= j < q.len() && sudogs[(#[trigger] q[j]) as int].g == Some(g) && (
                    sudogs[q[j] as int].is_select ==> gs[g as int].selectdone == 0);
                assert(!claimable(sudogs[q[j] as int], gs));
            }
        }
    }
}

/// Goroutine `g` waits on channel `c`, to send or to receive, and no other
/// operation has claimed it.
pub open spec fn waits_on_channel<V>(v: ChansView<V>, gs: Seq<G>, c: int, g: usize) -> bool {
    waits_unclaimed(v.chans[c].recvq, v.sudogs, gs, g) || waits_unclaimed(
        v.chans[c].sendq,
        v.sudogs,
        gs,
        g,
    )
}

/// Closing an open channel wakes everyone who waits on it, however many they are,
/// and nobody else: whoever waited there, unclaimed, is among those to be made
/// ready, and is told that its operation did not go through.  Where all wait by a
/// `select`, each is named once.  Everyone else, and every value, stays.
pub proof fn closing_wakes_everyone_who_waits<V>(v: ChansView<V>, gs: Seq<G>, c: int, g: usize)
    requires
        v.sound(),
        v.names(gs.len()),
        0 <= c < v.chans.len(),
        c <= usize::MAX,
        !v.chans[c].closed,
        g < gs.len(),
    ensures
        ({
            let (u, hs, woken) = v.after_close(gs, c);
            let h = hs[g as int];
            &&& woken.contains(g) <==> waits_on_channel(v, gs, c, g)
            &&& waits_on_channel(v, gs, c, g) ==> h.param is Some && (v.chans[c].recvq.contains(
                h.param->0,
            ) || v.chans[c].sendq.contains(h.param->0)) && v.sudogs[h.param->0 as int].g == Some(g)
                && !u.sudogs[h.param->0 as int].success
            &&& !waits_on_channel(v, gs, c, g) ==> h == gs[g as int]
            &&& h == (G { param: h.param, selectdone: h.selectdone, ..gs[g as int] })
            &&& hs.len() == gs.len()
            &&& u.sudogs.len() == v.sudogs.len()
            &&& forall|t: int|
                0 <= t < v.sudogs.len() ==> (#[trigger] u.sudogs[t]).elem == v.sudogs[t].elem
            &&& all_select(v.chans[c].recvq, v.sudogs) && all_select(v.chans[c].sendq, v.sudogs)
                ==> woken.no_duplicates()
        }),
{
    let ch = v.chans[c as usize as int];
    assert(ch.sound());
    let a = v.with_chan(c, ChanView { closed: true, ..ch });
    let q1 = ch.recvq;
    let q2 = ch.sendq;
    lemma_queue_names(v, gs, c, false);
    lemma_queue_names(v, gs, c, true);
    lemma_released(q1, v.sudogs, gs);
    let r1 = released(q1, v.sudogs, gs);
    let (b, hs1, w1) = a.set_free(gs, c, false);
    assert(b.sudogs == r1.sudogs && hs1 == r1.gs && w1 == r1.woken);
    assert(b.chans[c].queue(true) == q2);
    assert forall|j: int| 0 <= j < q2.len() implies (#[trigger] q2[j]) < r1.sudogs.len()
        && r1.sudogs[q2[j] as int].g is Some && r1.sudogs[q2[j] as int].g->0 < r1.gs.len()
        && r1.sudogs[q2[j] as int].g == v.sudogs[q2[j] as int].g && r1.sudogs[q2[j] as int].is_select
        == v.sudogs[q2[j] as int].is_select by {
        let t = q2[j] as int;
        assert(r1.sudogs[t] == (Sudog { success: r1.sudogs[t].success, ..v.sudogs[t] }));
    }
    lemma_released(q2, r1.sudogs, r1.gs);
    let r2 = released(q2, r1.sudogs, r1.gs);
    let (u, hs, woken) = v.after_close(gs, c);
    assert(u.sudogs == r2.sudogs && hs == r2.gs && woken == r1.woken + r2.woken);
    let s1 = all_select(q1, v.sudogs);
    let s2 = all_select(q2, v.sudogs);
    assert(s2 ==> all_select(q2, r1.sudogs));
    assert forall|x: usize| x < gs.len() && !waits_unclaimed(q1, v.sudogs, gs, x) implies (
    waits_unclaimed(q2, r1.sudogs, r1.gs, x) <==> waits_unclaimed(q2, v.sudogs, gs, x)) by {
        assert(r1.gs[x as int] == gs[x as int]);
        lemma_same_unclaimed(q2, r1.sudogs, v.sudogs, r1.gs, gs, x);
    }
    assert forall|x: usize|
        x < gs.len() && waits_unclaimed(q1, v.sudogs, gs, x) && s1 && s2 implies !waits_unclaimed(
        q2,
        r1.sudogs,
        r1.gs,
        x,
    ) by {
        assert(r1.gs[x as int].selectdone == 1);
        if waits_unclaimed(q2, r1.sudogs, r1.gs, x) {
            let j = choose|j: int|
                0 <= j < q2.len() && r1.sudogs[(#[trigger] q2[j]) as int].g == Some(x) && (
                r1.sudogs[q2[j] as int].is_select ==> r1.gs[x as int].selectdone == 0);
            assert(r1.sudogs[q2[j] as int].is_select);
        }
    }
    assert(woken.contains(g) <==> r1.woken.contains(g) || r2.woken.contains(g)) by {
        if r1.woken.contains(g) {
            assert(woken[r1.woken.index_of(g)] == g);
        }
        if r2.woken.contains(g) {
            assert(woken[r1.woken.len() + r2.woken.index_of(g)] == g);
        }
        if woken.contains(g) {
            let i = woken.index_of(g);
            if i < r1.woken.len() {
                assert(r1.woken[i] == g);
            } else {
                assert(r2.woken[i - r1.woken.len()] == g);
            }
        }
    }
    assert(r2.gs[g as int] == r2.gs[g as int] && r1.gs[g as int] == r1.gs[g as int]);
    assert(r1.woken.contains(g) <==> waits_unclaimed(q1, v.sudogs, gs, g));
    assert(r2.woken.contains(g) <==> waits_unclaimed(q2, r1.sudogs, r1.gs, g));
    if waits_unclaimed(q1, v.sudogs, gs, g) && waits_unclaimed(q2, r1.sudogs, r1.gs, g) {
        let t = r2.gs[g as int].param->0 as int;
        let i = q2.index_of(t as usize);
        assert(q2[i] == t);
    }
    if waits_unclaimed(q2, r1.sudogs, r1.gs, g) && !waits_unclaimed(q1, v.sudogs, gs, g) {
        let t = r2.gs[g as int].param->0 as int;
        let i = q2.index_of(t as usize);
        assert(q2[i] == t);
    }
    if waits_unclaimed(q1, v.sudogs, gs, g) && !waits_unclaimed(q2, r1.sudogs, r1.gs, g) {
        let t = r1.gs[g as int].param->0;
        let i = q1.index_of(t);
        assert(q1[i] == t);
        if q2.contains(t) {
            assert(r2.sudogs[t as int] == r2.sudogs[t as int]);
            lemma_untouched_stays_failed(q2, r1.sudogs, r1.gs, t);
        }
        assert(!r2.sudogs[t as int].success);
    }
    assert forall|t: int| 0 <= t < v.sudogs.len() implies (#[trigger] u.sudogs[t]).elem
        == v.sudogs[t].elem by {
        assert(r1.sudogs[t] == (Sudog { success: r1.sudogs[t].success, ..v.sudogs[t] }));
        assert(r2.sudogs[t] == (Sudog { success: r2.sudogs[t].success, ..r1.sudogs[t] }));
    }
    if s1 && s2 {
        assert forall|i: int, j: int|
            0 <= i < woken.len() && 0 <= j < woken.len() && i != j implies woken[i] != woken[j] by {
            let n = r1.woken.len() as int;
            if i < n && j < n {
                assert(r1.woken[i] != r1.woken[j]);
            } else if i >= n && j >= n {
                assert(r2.woken[i - n] != r2.woken[j - n]);
            } else {
                let (x, y) = if i < n {
                    (i, j)
                } else {
                    (j, i)
                };
                let w = woken[x];
                assert(r1.woken[x] == w);
                assert(r1.woken.contains(w));
                assert(w < gs.len());
                if r2.woken[y - n] == w {
                    assert(r2.woken.contains(w));
                }
            }
        }
    }
}

/// What is already marked as not gone through stays so.
proof fn lemma_untouched_stays_failed<V>(q: Seq<usize>, sudogs: Seq<Sudog<V>>, gs: Seq<G>, t: usize)
    requires
        q.no_duplicates(),
        forall|j: int|
            0 <= j < q.len() ==> (#[trigger] q[j]) < sudogs.len() && sudogs[q[j] as int].g is Some
                && sudogs[q[j] as int].g->0 < gs.len(),
        t < sudogs.len(),
        !sudogs[t as int].success,
    ensures
        !released(q, sudogs, gs).sudogs[t as int].success,
    decreases q.len(),
{
    let k = first_claimable(q, sudogs, gs, 0);
    lemma_first_claimable(q, sudogs, gs, 0);
    if q.len() > 0 && k < q.len() {
        let sg = q[k as int];
        let s = sudogs[sg as int];
        let h = claimed(s, gs);
        let rest = q.skip(k as int + 1);
        let sudogs2 = sudogs.update(sg as int, Sudog { success: false, ..s });
        let gs2 = h.update(s.g->0 as int, G { param: Some(sg), ..h[s.g->0 as int] });
        assert forall|j: int| 0 <= j < rest.len() implies (#[trigger] rest[j]) < sudogs2.len()
            && sudogs2[rest[j] as int].g is Some && sudogs2[rest[j] as int].g->0 < gs2.len() by {
            assert(rest[j] == q[j + k + 1]);
        }
        lemma_untouched_stays_failed(rest, sudogs2, gs2, t);
    }
}

proof fn lemma_same_unclaimed<V>(
    q: Seq<usize>,
    a: Seq<Sudog<V>>,
    b: Seq<Sudog<V>>,
    ga: Seq<G>,
    gb: Seq<G>,
    x: usize,
)
    requires
        forall|j: int|
            0 <= j < q.len() ==> a[(#[trigger] q[j]) as int].g == b[q[j] as int].g
                && a[q[j] as int].is_select == b[q[j] as int].is_select,
        ga[x as int].selectdone == gb[x as int].selectdone,
    ensures
        waits_unclaimed(q, a, ga, x) <==> waits_unclaimed(q, b, gb, x),
{
    if waits_unclaimed(q, a, ga, x) {
        let j = choose|j: int|
            0 <= j < q.len() && a[(#[trigger] q[j]) as int].g == Some(x) && (
            a[q[j] as int].is_select ==> ga[x as int].selectdone == 0);
        assert(b[q[j] as int].g == Some(x));
    }
    if waits_unclaimed(q, b, gb, x) {
        let j = choose|j: int|
            0 <= j < q.len() && b[(#[trigger] q[j]) as int].g == Some(x) && (
            b[q[j] as int].is_select ==> gb[x as int].selectdone == 0);
        assert(a[q[j] as int].g == Some(x));
    }
}

proof fn lemma_queue_names<V>(v: ChansView<V>, gs: Seq<G>, c: int, sends: bool)
    requires
        v.sound(),
        v.names(gs.len()),
        0 <= c < v.chans.len(),
        c <= usize::MAX,
    ensures
        v.chans[c].queue(sends).no_duplicates(),
        forall|j: int|
            0 <= j < v.chans[c].queue(sends).len() ==> (#[trigger] v.chans[c].queue(sends)[j])
                < v.sudogs.len() && v.sudogs[v.chans[c].queue(sends)[j] as int].g is Some
                && v.sudogs[v.chans[c].queue(sends)[j] as int].g->0 < gs.len(),
{
    let q = v.chans[c as usize as int].queue(sends);
    assert(v.chans[c as usize as int].sound());
    assert forall|j: int| 0 <= j < q.len() implies (#[trigger] q[j]) < v.sudogs.len()
        && v.sudogs[q[j] as int].g is Some && v.sudogs[q[j] as int].g->0 < gs.len() by {
        assert(waits(v.sudogs[q[j] as int], c as usize, sends));
        assert(opt_below(v.sudogs[q[j] as int].g, gs.len()));
    }
}

/// The goroutines that wait in a queue and can be claimed, in its order.
pub open spec fn in_turn<V>(q: Seq<usize>, sudogs: Seq<Sudog<V>>, gs: Seq<G>) -> Seq<usize> {
    q.filter(|t: usize| claimable(sudogs[t as int], gs)).map_values(
        |t: usize| sudogs[t as int].g->0,
    )
}

/// No goroutine waits in a queue twice.
pub open spec fn each_once<V>(q: Seq<usize>, sudogs: Seq<Sudog<V>>) -> bool {
    forall|i: int, j: int|
        0 <= i < j < q.len() ==> sudogs[(#[trigger] q[i]) as int].g != sudogs[(
        #[trigger] q[j]) as int].g
}

proof fn lemma_same_filter(q: Seq<usize>, f: spec_fn(usize) -> bool, g: spec_fn(usize) -> bool)
    requires
        forall|i: int| 0 <= i < q.len() ==> f(#[trigger] q[i]) == g(q[i]),
    ensures
        q.filter(f) == q.filter(g),
    decreases q.len(),
{
    reveal(Seq::filter);
    if q.len() > 0 {
        assert forall|i: int| 0 <= i < q.drop_last().len() implies f(#[trigger] q.drop_last()[i])
            == g(q.drop_last()[i]) by {
            assert(q.drop_last()[i] == q[i]);
        }
        lemma_same_filter(q.drop_last(), f, g);
        assert(f(q[q.len() - 1]) == g(q[q.len() - 1]));
    }
}

proof fn lemma_none_left(q: Seq<usize>, f: spec_fn(usize) -> bool)
    requires
        forall|i: int| 0 <= i < q.len() ==> !f(#[trigger] q[i]),
    ensures
        q.filter(f).len() == 0,
    decreases q.len(),
{
    reveal(Seq::filter);
    if q.len() > 0 {
        assert forall|i: int| 0 <= i < q.drop_last().len() implies !f(
            #[trigger] q.drop_last()[i],
        ) by {
            assert(q.drop_last()[i] == q[i]);
        }
        lemma_none_left(q.drop_last(), f);
        assert(!f(q[q.len() - 1]));
    }
}

/// Whether those of a queue can be claimed depends on nothing but who they are and
/// what has become of their goroutines.
proof fn lemma_same_turn<V>(
    q: Seq<usize>,
    a: Seq<Sudog<V>>,
    b: Seq<Sudog<V>>,
    gs: Seq<G>,
    hs: Seq<G>,
)
    requires
        forall|i: int|
            0 <= i < q.len() ==> a[(#[trigger] q[i]) as int].g == b[q[i] as int].g && a[q[i] as int].g is Some
                && a[q[i] as int].is_select == b[q[i] as int].is_select && gs[a[q[i] as int].g->0 as int].selectdone
                == hs[a[q[i] as int].g->0 as int].selectdone,
    ensures
        in_turn(q, a, gs) == in_turn(q, b, hs),
{
    let f = |t: usize| claimable(a[t as int], gs);
    let g = |t: usize| claimable(b[t as int], hs);
    assert forall|i: int| 0 <= i < q.len() implies f(#[trigger] q[i]) == g(q[i]) by {}
    lemma_same_filter(q, f, g);
    let r = q.filter(f);
    assert forall|i: int| 0 <= i < r.len() implies a[(#[trigger] r[i]) as int].g == b[r[i] as int].g by {
        q.lemma_filter_contains_rev(f, r[i]);
        let j = q.index_of(r[i]);
        assert(q[j] == r[i]);
    }
    assert(in_turn(q, a, gs) =~= in_turn(q, b, hs));
}

proof fn lemma_first_in_turn<V>(q: Seq<usize>, sudogs: Seq<Sudog<V>>, gs: Seq<G>, k: int)
    requires
        0 <= k < q.len(),
        claimable(sudogs[q[k] as int], gs),
        forall|j: int| 0 <= j < k ==> !claimable(sudogs[(#[trigger] q[j]) as int], gs),
    ensures
        in_turn(q, sudogs, gs) == seq![sudogs[q[k] as int].g->0] + in_turn(
            q.skip(k + 1),
            sudogs,
            gs,
        ),
{
    let f = |t: usize| claimable(sudogs[t as int], gs);
    let sg = q[k];
    let head = q.take(k);
    let rest = q.skip(k + 1);
    assert(q =~= head + (seq![sg] + rest));
    Seq::filter_distributes_over_add(head, seq![sg] + rest, f);
    Seq::filter_distributes_over_add(seq![sg], rest, f);
    assert forall|i: int| 0 <= i < head.len() implies !f(#[trigger] head[i]) by {
        assert(head[i] == q[i]);
    }
    lemma_none_left(head, f);
    assert(seq![sg].filter(f) =~= seq![sg]) by {
        reveal(Seq::filter);
        assert(seq![sg].drop_last() =~= Seq::empty());
        assert(seq![sg].last() == sg);
        assert(Seq::<usize>::empty().filter(f) =~= Seq::empty());
        assert(f(sg));
    }
    assert(q.filter(f) =~= seq![sg] + rest.filter(f));
    assert(in_turn(q, sudogs, gs) =~= seq![sudogs[sg as int].g->0] + in_turn(rest, sudogs, gs));
}

proof fn lemma_released_in_turn<V>(q: Seq<usize>, sudogs: Seq<Sudog<V>>, gs: Seq<G>)
    requires
        q.no_duplicates(),
        each_once(q, sudogs),
        forall|j: int|
            0 <= j < q.len() ==> (#[trigger] q[j]) < sudogs.len() && sudogs[q[j] as int].g is Some
                && sudogs[q[j] as int].g->0 < gs.len(),
    ensures
        released(q, sudogs, gs).woken == in_turn(q, sudogs, gs),
    decreases q.len(),
{
    let k = first_claimable(q, sudogs, gs, 0);
    lemma_first_claimable(q, sudogs, gs, 0);
    if q.len() > 0 && k < q.len() {
        let sg = q[k as int];
        let s = sudogs[sg as int];
        let g0 = s.g->0;
        let h = claimed(s, gs);
        let rest = q.skip(k as int + 1);
        let sudogs2 = sudogs.update(sg as int, Sudog { success: false, ..s });
        let gs2 = h.update(g0 as int, G { param: Some(sg), ..h[g0 as int] });
        assert forall|j: int| 0 <= j < rest.len() implies (#[trigger] rest[j]) < sudogs2.len()
            && sudogs2[rest[j] as int] == sudogs[rest[j] as int] && sudogs2[rest[j] as int].g is Some
            && sudogs2[rest[j] as int].g->0 < gs2.len() && sudogs2[rest[j] as int].g != Some(g0) by {
            assert(rest[j] == q[j + k + 1]);
            assert(sudogs[q[k as int] as int].g != sudogs[q[j + k + 1] as int].g);
        }
        assert forall|i: int, j: int| 0 <= i < j < rest.len() implies sudogs2[(
        #[trigger] rest[i]) as int].g != sudogs2[(#[trigger] rest[j]) as int].g by {
            assert(rest[i] == q[i + k + 1] && rest[j] == q[j + k + 1]);
        }
        lemma_released_in_turn(rest, sudogs2, gs2);
        lemma_same_turn(rest, sudogs2, sudogs, gs2, gs);
        lemma_first_in_turn(q, sudogs, gs, k as int);
    } else {
        let f = |t: usize| claimable(sudogs[t as int], gs);
        assert forall|i: int| 0 <= i < q.len() implies !f(#[trigger] q[i]) by {}
        lemma_none_left(q, f);
        assert(in_turn(q, sudogs, gs) =~= Seq::empty());
    }
}

/// Closing a channel wakes first those who wait to receive, then those who wait to
/// send, each in the order in which they came.
pub proof fn closing_wakes_in_turn<V>(v: ChansView<V>, gs: Seq<G>, c: int)
    requires
        v.sound(),
        v.names(gs.len()),
        0 <= c < v.chans.len(),
        c <= usize::MAX,
        !v.chans[c].closed,
        each_once(v.chans[c].recvq + v.chans[c].sendq, v.sudogs),
    ensures
        v.after_close(gs, c).2 == in_turn(v.chans[c].recvq, v.sudogs, gs) + in_turn(
            v.chans[c].sendq,
            v.sudogs,
            gs,
        ),
{
    let ch = v.chans[c as usize as int];
    assert(ch.sound());
    let a = v.with_chan(c, ChanView { closed: true, ..ch });
    let q1 = ch.recvq;
    let q2 = ch.sendq;
    let q = q1 + q2;
    lemma_queue_names(v, gs, c, false);
    lemma_queue_names(v, gs, c, true);
    assert forall|i: int, j: int| 0 <= i < j < q1.len() implies v.sudogs[(#[trigger] q1[i]) as int].g
        != v.sudogs[(#[trigger] q1[j]) as int].g by {
        assert(q[i] == q1[i] && q[j] == q1[j]);
    }
    lemma_released(q1, v.sudogs, gs);
    lemma_released_in_turn(q1, v.sudogs, gs);
    let r1 = released(q1, v.sudogs, gs);
    let (b, hs1, w1) = a.set_free(gs, c, false);
    assert(b.sudogs == r1.sudogs && hs1 == r1.gs && w1 == r1.woken);
    assert(b.chans[c].queue(true) == q2);
    assert forall|j: int| 0 <= j < q2.len() implies (#[trigger] q2[j]) < r1.sudogs.len()
        && r1.sudogs[q2[j] as int].g is Some && r1.sudogs[q2[j] as int].g->0 < r1.gs.len()
        && r1.sudogs[q2[j] as int].g == v.sudogs[q2[j] as int].g && r1.sudogs[q2[j] as int].is_select
        == v.sudogs[q2[j] as int].is_select && r1.gs[r1.sudogs[q2[j] as int].g->0 as int]
        == gs[r1.sudogs[q2[j] as int].g->0 as int] by {
        let t = q2[j] as int;
        assert(r1.sudogs[t] == (Sudog { success: r1.sudogs[t].success, ..v.sudogs[t] }));
        let x = v.sudogs[t].g->0;
        assert(!waits_unclaimed(q1, v.sudogs, gs, x)) by {
            if waits_unclaimed(q1, v.sudogs, gs, x) {
                let i = choose|i: int|
                    0 <= i < q1.len() && v.sudogs[(#[trigger] q1[i]) as int].g == Some(x) && (
                    v.sudogs[q1[i] as int].is_select ==> gs[x as int].selectdone == 0);
                assert(q[i] == q1[i] && q[q1.len() + j] == q2[j]);
            }
        }
    }
    assert forall|i: int, j: int| 0 <= i < j < q2.len() implies r1.sudogs[(
    #[trigger] q2[i]) as int].g != r1.sudogs[(#[trigger] q2[j]) as int].g by {
        assert(q[q1.len() + i] == q2[i] && q[q1.len() + j] == q2[j]);
    }
    lemma_released_in_turn(q2, r1.sudogs, r1.gs);
    lemma_same_turn(q2, r1.sudogs, v.sudogs, r1.gs, gs);
}

/// A new channel is open, with nobody waiting and nothing in it; closing a channel
/// again does nothing.
pub proof fn a_channel_begins_open_and_closes_once<V>(v: ChansView<V>, gs: Seq<G>, c: int, cap: usize)
    requires
        0 <= c < v.chans.len(),
    ensures
        ({
            let n = ChanView::<V>::fresh(cap);
            &&& !n.closed && n.cap == cap && n.buf.len() == 0
            &&& n.sendq.len() == 0 && n.recvq.len() == 0
        }),
        v.chans[c].closed ==> v.after_close(gs, c) == (v, gs, Seq::<usize>::empty()),
        ({
            let (u, hs, woken) = v.after_close(gs, c);
            &&& u.chans[c].closed && u.chans[c].cap == v.chans[c].cap
            &&& u.chans.len() == v.chans.len() && u.pool == v.pool
            &&& u.after_close(hs, c) == (u, hs, Seq::<usize>::empty())
        }),
{
}

} // verus!
