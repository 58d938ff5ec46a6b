//! Waiting on several channel operations at once.

use vstd::prelude::*;

use crate::chan::{
    lemma_first_claimable, lemma_wf_sound, waits, ChanView, Chans, ChansView, Receiver, Sender,
};
use crate::runtime::g::{WaitReason, G};
use crate::runtime::park::{ready_touches_only_its_goroutine, Ready};
use crate::runtime::sched::{opt_below, Rt, RtView};
use crate::runtime::sudog::{claimable, claimed, first_claimable, Elem, Sudog};

verus! {

/// The index that says that no case was ready and the default was taken.
pub const CASE_DEFAULT: usize = usize::MAX;

/// What one try of a channel operation comes to.
#[derive(Copy, Clone, Debug, PartialEq, Eq, Structural)]
pub enum TryResult {
    /// It would have to wait.
    NotReady,
    /// It is done; `ok` is false for a receive from a closed, empty channel.
    Done { ok: bool },
    /// It is done together with goroutine `gp`, which waited and is now to be
    /// made ready.
    Handoff { gp: usize, ok: bool },
    /// It wanted to send on a closed channel.
    ClosedSend,
}

/// A try, and the state that it leaves.
pub struct Tried<V> {
    pub res: TryResult,
    pub v: ChansView<V>,
    pub gs: Seq<G>,
    /// What is left of the value to send, or the value received.
    pub elem: Option<V>,
}

/// The goroutines after the one behind sudog `sg` was claimed and told which
/// sudog woke it.
pub open spec fn handed<V>(gs: Seq<G>, s: Sudog<V>, sg: usize) -> Seq<G> {
    let h = claimed(s, gs);
    let g = s.g->0 as int;
    h.update(g, G { param: Some(sg), ..h[g] })
}

impl<V> ChansView<V> {
    /// The position of the first goroutine on one side of channel `c` that can
    /// be claimed.
    pub open spec fn first_waiter(self, gs: Seq<G>, c: int, sends: bool) -> nat {
        first_claimable(self.chans[c].queue(sends), self.sudogs, gs, 0)
    }

    /// A try to send `elem` on channel `c`: refused where the channel is closed;
    /// else handed to the receiver that has waited longest; else buffered,
    /// where there is room.
    pub open spec fn tried_send(self, gs: Seq<G>, c: int, elem: Option<V>) -> Tried<V> {
        let ch = self.chans[c];
        let k = self.first_waiter(gs, c, false);
        let none = ChanView { recvq: Seq::empty(), ..ch };
        if ch.closed {
            Tried { res: TryResult::ClosedSend, v: self, gs, elem }
        } else if k < ch.recvq.len() {
            let sg = ch.recvq[k as int];
            let s = self.sudogs[sg as int];
            let got = if s.elem is Slot {
                Elem::Slot(elem)
            } else {
                Elem::Null
            };
            Tried {
                res: TryResult::Handoff { gp: s.g->0, ok: true },
                v: self.with_chan(
                    c,
                    ChanView { recvq: ch.recvq.skip(k as int + 1), ..ch },
                ).with_sudog(sg as int, Sudog { elem: got, success: true, ..s }),
                gs: handed(gs, s, sg),
                elem: None,
            }
        } else if ch.buf.len() < ch.cap {
            Tried {
                res: TryResult::Done { ok: true },
                v: self.with_chan(c, ChanView { buf: ch.buf.push(elem->0), ..none }),
                gs,
                elem: None,
            }
        } else {
            Tried { res: TryResult::NotReady, v: self.with_chan(c, none), gs, elem }
        }
    }

    /// A try to receive from channel `c`: where a sender waits, the oldest value
    /// comes out and the sender's goes in behind; else the oldest buffered
    /// value; else a closed channel says that nothing will come.
    pub open spec fn tried_recv(self, gs: Seq<G>, c: int, elem: Option<V>) -> Tried<V> {
        let ch = self.chans[c];
        let k = self.first_waiter(gs, c, true);
        let none = ChanView { sendq: Seq::empty(), ..ch };
        if k < ch.sendq.len() {
            let sg = ch.sendq[k as int];
            let s = self.sudogs[sg as int];
            let rest = ChanView { sendq: ch.sendq.skip(k as int + 1), ..ch };
            let line = ch.buf.push(s.elem->0->0);
            Tried {
                res: TryResult::Handoff { gp: s.g->0, ok: true },
                v: self.with_chan(c, ChanView { buf: line.skip(1), ..rest }).with_sudog(
                    sg as int,
                    Sudog { elem: Elem::Null, success: true, ..s },
                ),
                gs: handed(gs, s, sg),
                elem: Some(line[0]),
            }
        } else if ch.buf.len() > 0 {
            Tried {
                res: TryResult::Done { ok: true },
                v: self.with_chan(c, ChanView { buf: ch.buf.skip(1), ..none }),
                gs,
                elem: Some(ch.buf[0]),
            }
        } else {
            Tried {
                res: if ch.closed {
                    TryResult::Done { ok: false }
                } else {
                    TryResult::NotReady
                },
                v: self.with_chan(c, none),
                gs,
                elem,
            }
        }
    }
}

impl<V> Chans<V> {
    /// Tells the goroutine behind sudog `sg` that its operation went through.
    fn hand_over(&mut self, gs: &mut Vec<G>, sg: usize, gp: usize, elem: Elem<V>) -> (old_elem: Elem<V>)
        requires
            old(self).wf(),
            old(self).pool.in_use(sg),
            old(self).pool.slots@[sg as int].q is None,
            old(self)@.sudogs[sg as int].g == Some(gp),
            gp < old(gs)@.len(),
        ensures
            final(self).wf(),
            old_elem == old(self)@.sudogs[sg as int].elem,
            final(self)@ == old(self)@.with_sudog(
                sg as int,
                Sudog { elem, success: true, ..old(self)@.sudogs[sg as int] },
            ),
            final(self).chans == old(self).chans,
            forall|t: usize| #[trigger] final(self).pool.in_use(t) <==> old(self).pool.in_use(t),
            final(gs)@ == old(gs)@.update(
                gp as int,
                G { param: Some(sg), ..old(gs)@[gp as int] },
            ),
    {
        let mut s: Sudog<V> = self.replace_sudog(sg, Sudog::zeroed());
        let mut e: Elem<V> = elem;
        std::mem::swap(&mut e, &mut s.elem);
        s.success = true;
        s.next = None;
        s.prev = None;
        s.q = None;
        let _ = self.replace_sudog(sg, s);
        gs[gp].param = Some(sg);
        assert(self@.sudogs =~= old(self)@.sudogs.update(
            sg as int,
            Sudog { elem, success: true, ..old(self)@.sudogs[sg as int] },
        ));
        e
    }

    /// Tries to send what `elem` holds on channel `c`.
    pub fn try_send(&mut self, gs: &mut Vec<G>, c: usize, elem: &mut Option<V>) -> (res: TryResult)
        requires
            old(self).wf(),
            old(self)@.names(old(gs)@.len()),
            c < old(self)@.chans.len(),
            *old(elem) is Some,
        ensures
            final(self).wf(),
            final(self)@.names(final(gs)@.len()),
            final(gs)@.len() == old(gs)@.len(),
            forall|t: usize| #[trigger] final(self).pool.in_use(t) <==> old(self).pool.in_use(t),
            (Tried { res, v: final(self)@, gs: final(gs)@, elem: *final(elem) }) == old(self)@.tried_send(
                old(gs)@,
                c as int,
                *old(elem),
            ),
    {
        if self.chans[c].closed {
            return TryResult::ClosedSend;
        }
        match self.dequeue_waiter(gs, c, false) {
            Some(sg) => {
                let gp: usize = match self.pool.slots[sg].g {
                    Some(gp) => gp,
                    None => 0,
                };
                let ghost mid = self@;
                assert(mid.sudogs[sg as int].g == Some(gp));
                let has_slot: bool = match self.pool.slots[sg].elem {
                    Elem::Null => false,
                    Elem::Slot(_) => true,
                };
                let val: Option<V> = elem.take();
                let e: Elem<V> = if has_slot {
                    Elem::Slot(val)
                } else {
                    Elem::Null
                };
                let _ = self.hand_over(gs, sg, gp, e);
                TryResult::Handoff { gp, ok: true }
            },
            None => {
                let ghost mid = *self;
                assert(mid@.chans.len() == mid.chans@.len());
                assert(mid@.chans[c as int] == mid.chans@[c as int]@);
                if self.chans[c].buf.len() < self.chans[c].cap {
                    let val: Option<V> = elem.take();
                    self.chans[c].buf.push_back(val.unwrap());
                    proof {
                        assert forall|x: usize| x < self.chans@.len() implies (
                        #[trigger] self.chans@[x as int]).wf(x, self.pool.slots@) by {
                            assert(mid.chans@[x as int].wf(x, self.pool.slots@));
                        }
                        assert(self@.chans =~= mid@.chans.update(
                            c as int,
                            ChanView { buf: self.chans@[c as int].buf@, ..mid@.chans[c as int] },
                        ));
                        assert(self@.pool =~= mid@.pool);
                        assert(self@ =~= old(self)@.tried_send(old(gs)@, c as int, *old(elem)).v);
                    }
                    TryResult::Done { ok: true }
                } else {
                    TryResult::NotReady
                }
            },
        }
    }

    /// Tries to receive from channel `c` into `elem`.
    pub fn try_recv(&mut self, gs: &mut Vec<G>, c: usize, elem: &mut Option<V>) -> (res: TryResult)
        requires
            old(self).wf(),
            old(self)@.names(old(gs)@.len()),
            c < old(self)@.chans.len(),
        ensures
            final(self).wf(),
            final(self)@.names(final(gs)@.len()),
            final(gs)@.len() == old(gs)@.len(),
            forall|t: usize| #[trigger] final(self).pool.in_use(t) <==> old(self).pool.in_use(t),
            (Tried { res, v: final(self)@, gs: final(gs)@, elem: *final(elem) }) == old(self)@.tried_recv(
                old(gs)@,
                c as int,
                *old(elem),
            ),
    {
        let ghost ch = self@.chans[c as int];
        match self.dequeue_waiter(gs, c, true) {
            Some(sg) => {
                let gp: usize = match self.pool.slots[sg].g {
                    Some(gp) => gp,
                    None => 0,
                };
                let ghost was = self@.sudogs[sg as int];
                assert(was.g == Some(gp));
                let e: Elem<V> = self.hand_over(gs, sg, gp, Elem::Null);
                let ghost mid = *self;
                assert(mid@.chans.len() == mid.chans@.len());
                assert(mid@.chans[c as int] == mid.chans@[c as int]@);
                let sent: Option<V> = match e {
                    Elem::Null => None,
                    Elem::Slot(o) => o,
                };
                assert(sent is Some);
                self.chans[c].buf.push_back(sent.unwrap());
                *elem = self.chans[c].buf.pop_front();
                proof {
                    let line = ch.buf.push(was.elem->0->0);
                    assert(self.chans@[c as int].buf@ =~= line.skip(1));
                    assert forall|x: usize| x < self.chans@.len() implies (
                    #[trigger] self.chans@[x as int]).wf(x, self.pool.slots@) by {
                        assert(mid.chans@[x as int].wf(x, self.pool.slots@));
                    }
                    assert(self@.chans =~= mid@.chans.update(
                        c as int,
                        ChanView { buf: self.chans@[c as int].buf@, ..mid@.chans[c as int] },
                    ));
                    assert(self@.pool =~= mid@.pool);
                    assert(self@ =~= old(self)@.tried_recv(old(gs)@, c as int, *old(elem)).v);
                }
                TryResult::Handoff { gp, ok: true }
            },
            None => {
                let ghost mid = *self;
                assert(mid@.chans.len() == mid.chans@.len());
                assert(mid@.chans[c as int] == mid.chans@[c as int]@);
                if self.chans[c].buf.len() > 0 {
                    *elem = self.chans[c].buf.pop_front();
                    proof {
                        assert(self.chans@[c as int].buf@ =~= ch.buf.skip(1));
                        assert forall|x: usize| x < self.chans@.len() implies (
                        #[trigger] self.chans@[x as int]).wf(x, self.pool.slots@) by {
                            assert(mid.chans@[x as int].wf(x, self.pool.slots@));
                        }
                        assert(self@.chans =~= mid@.chans.update(
                            c as int,
                            ChanView { buf: self.chans@[c as int].buf@, ..mid@.chans[c as int] },
                        ));
                        assert(self@.pool =~= mid@.pool);
                        assert(self@ =~= old(self)@.tried_recv(old(gs)@, c as int, *old(elem)).v);
                    }
                    TryResult::Done { ok: true }
                } else if self.chans[c].closed {
                    TryResult::Done { ok: false }
                } else {
                    TryResult::NotReady
                }
            },
        }
    }
}

/// One case of a `select`.
pub struct SCase<V> {
    /// The channel.
    pub chan: usize,
    /// The sudog with which it waits.
    pub sg: Option<usize>,
    /// The value to send, or the place of the value received.
    pub elem: Option<V>,
    /// It sends; otherwise it receives.
    pub send: bool,
}

/// The case of receiving from `rx` into `slot`.
pub fn recv_case_of<V>(rx: &Receiver, slot: Option<V>) -> (case: SCase<V>)
    ensures
        case == (SCase { chan: rx.chan, sg: None, elem: slot, send: false }),
{
    SCase { chan: rx.chan, sg: None, elem: slot, send: false }
}

/// The case of sending `val` on `tx`.
pub fn send_case_of<V>(tx: &Sender, val: V) -> (case: SCase<V>)
    ensures
        case == (SCase { chan: tx.chan, sg: None, elem: Some(val), send: true }),
{
    SCase { chan: tx.chan, sg: None, elem: Some(val), send: true }
}

/// A generator of numbers that need to be spread, not unforeseeable.
#[derive(Copy, Clone, Debug, PartialEq, Eq, Structural)]
pub struct Lehmer(pub u64);

/// The state of the generator after `s`.
pub open spec fn lehmer_next(s: u64) -> u64 {
    s.wrapping_mul(6_364_136_223_846_793_005).wrapping_add(1)
}

/// The number, below `n`, that the generator gives in state `s`.
pub open spec fn lehmer_value(s: u64, n: nat) -> int {
    (s >> 33) as int % n as int
}

/// The seed of the generator for the goroutine of number `goid`, or outside of
/// any.
pub open spec fn seed_of(goid: Option<u64>) -> u64 {
    match goid {
        Some(goid) => goid | 1,
        None => 1,
    }
}

impl Lehmer {
    /// The generator for the goroutine of number `goid`.
    pub fn from_goid(goid: Option<u64>) -> (r: Lehmer)
        ensures
            r.0 == seed_of(goid),
    {
        match goid {
            Some(goid) => Lehmer(goid | 1),
            None => Lehmer(1),
        }
    }

    /// The next number below `n`.
    pub fn next_usize(&mut self, n: usize) -> (x: usize)
        requires
            n > 0,
        ensures
            final(self).0 == lehmer_next(old(self).0),
            x == lehmer_value(final(self).0, n as nat),
            x < n,
    {
        let s: u64 = self.0.wrapping_mul(6_364_136_223_846_793_005).wrapping_add(1);
        self.0 = s;
        assert(s >> 33 <= 0x7fff_ffff) by (bit_vector);
        ((s >> 33) as usize) % n
    }
}

/// The sequence with two entries exchanged.
pub open spec fn swapped(s: Seq<usize>, i: int, j: int) -> Seq<usize> {
    s.update(i, s[j]).update(j, s[i])
}

/// The order in which the entries up to `i` are exchanged with earlier ones,
/// last first.
pub open spec fn shuffled(s: Seq<usize>, seed: u64, i: nat) -> Seq<usize>
    decreases i,
{
    if i == 0 {
        s
    } else {
        let t = lehmer_next(seed);
        let j = lehmer_value(t, i + 1);
        shuffled(swapped(s, i as int, j), t, (i - 1) as nat)
    }
}

/// The numbers below `n`, in order.
pub open spec fn upto(n: nat) -> Seq<usize> {
    Seq::new(n, |i: int| i as usize)
}

/// The order in which `n` cases are looked at.
pub open spec fn poll_order_of(n: nat, goid: Option<u64>) -> Seq<usize> {
    if n == 0 {
        upto(n)
    } else {
        shuffled(upto(n), seed_of(goid), (n - 1) as nat)
    }
}

/// The order in which a goroutine looks at its `n` cases.
pub fn poll_order(n: usize, goid: Option<u64>) -> (order: Vec<usize>)
    ensures
        order@ == poll_order_of(n as nat, goid),
{
    let mut order: Vec<usize> = Vec::new();
    let mut k: usize = 0;
    while k < n
        invariant
            k <= n,
            order@ == upto(k as nat),
        decreases n - k,
    {
        order.push(k);
        k = k + 1;
        assert(order@ =~= upto(k as nat));
    }
    if n == 0 {
        return order;
    }
    let mut rng: Lehmer = Lehmer::from_goid(goid);
    let mut i: usize = n - 1;
    while i > 0
        invariant
            i < n,
            order@.len() == n,
            shuffled(order@, rng.0, i as nat) == poll_order_of(n as nat, goid),
        decreases i,
    {
        let ghost s = order@;
        let ghost seed = rng.0;
        let j: usize = rng.next_usize(i + 1);
        let a: usize = order[i];
        let b: usize = order[j];
        order.set(i, b);
        order.set(j, a);
        assert(order@ =~= swapped(s, i as int, j as int));
        i = i - 1;
    }
    order
}

/// Shuffling keeps what is in the row, and keeps it there once.
proof fn lemma_shuffled(s: Seq<usize>, seed: u64, i: nat)
    requires
        s.no_duplicates(),
        i < s.len() || i == 0,
    ensures
        shuffled(s, seed, i).len() == s.len(),
        shuffled(s, seed, i).no_duplicates(),
        forall|x: usize| #[trigger] shuffled(s, seed, i).contains(x) <==> s.contains(x),
    decreases i,
{
    if i > 0 {
        let t = lehmer_next(seed);
        let j = lehmer_value(t, i + 1);
        let w = swapped(s, i as int, j);
        assert(0 <= j < i + 1) by {
            vstd::arithmetic::div_mod::lemma_mod_bound((t >> 33) as int, (i + 1) as int);
        }
        assert(w.no_duplicates()) by {
            assert forall|a: int, b: int| 0 <= a < w.len() && 0 <= b < w.len() && a != b implies w[a]
                != w[b] by {}
        }
        assert forall|x: usize| #[trigger] w.contains(x) <==> s.contains(x) by {
            if w.contains(x) {
                let a = w.index_of(x);
                let b = if a == i {
                    j
                } else if a == j {
                    i as int
                } else {
                    a
                };
                assert(s[b] == x);
            }
            if s.contains(x) {
                let a = s.index_of(x);
                let b = if a == i {
                    j
                } else if a == j {
                    i as int
                } else {
                    a
                };
                assert(w[b] == x);
            }
        }
        lemma_shuffled(w, t, (i - 1) as nat);
    }
}

/// Every case is looked at exactly once.
pub proof fn poll_order_is_a_permutation(n: nat, goid: Option<u64>)
    requires
        n <= usize::MAX,
    ensures
        poll_order_of(n, goid).len() == n,
        poll_order_of(n, goid).no_duplicates(),
        forall|x: usize| #[trigger] poll_order_of(n, goid).contains(x) <==> x < n,
{
    let u = upto(n);
    assert forall|x: usize| #[trigger] u.contains(x) <==> x < n by {
        if x < n {
            assert(u[x as int] == x);
        }
    }
    if n > 0 {
        lemma_shuffled(u, seed_of(goid), (n - 1) as nat);
    }
}

/// The channels of some cases.
pub open spec fn chans_of<V>(cases: Seq<SCase<V>>) -> Seq<usize> {
    Seq::new(cases.len(), |i: int| cases[i].chan)
}

/// Entry `a` of a lock order names channel `c`.
pub open spec fn locks(chans: Seq<usize>, order: Seq<usize>, a: int, c: usize) -> bool {
    0 <= a < order.len() && chans[order[a] as int] == c
}

/// A lock order has the channel of case `i`.
pub open spec fn covered(chans: Seq<usize>, order: Seq<usize>, i: int) -> bool {
    exists|a: int| #[trigger] locks(chans, order, a, chans[i])
}

/// No case before `x` has its channel.
pub open spec fn first_with(chans: Seq<usize>, x: int) -> bool {
    forall|i: int| 0 <= i < x ==> #[trigger] chans[i] != chans[x]
}

/// A lock order for the first `k` of some channels: it names each of them once,
/// by the first case that has it, in the order of their numbers.
pub open spec fn is_lock_order(chans: Seq<usize>, order: Seq<usize>, k: int) -> bool {
    &&& forall|a: int| 0 <= a < order.len() ==> (#[trigger] order[a]) < k
    &&& forall|a: int| 0 <= a < order.len() ==> first_with(chans, (#[trigger] order[a]) as int)
    &&& forall|a: int, b: int|
        0 <= a < b < order.len() ==> chans[(#[trigger] order[a]) as int] < chans[(
        #[trigger] order[b]) as int]
    &&& forall|i: int| 0 <= i < k ==> #[trigger] covered(chans, order, i)
}

/// A channel that is new comes in at its place.
proof fn lemma_lock_inserted(chans: Seq<usize>, o: Seq<usize>, k: int, pos: int)
    requires
        is_lock_order(chans, o, k),
        0 <= k < chans.len(),
        k <= usize::MAX,
        0 <= pos <= o.len(),
        forall|a: int| 0 <= a < pos ==> chans[(#[trigger] o[a]) as int] < chans[k],
        pos < o.len() ==> chans[o[pos] as int] > chans[k],
    ensures
        is_lock_order(chans, o.insert(pos, k as usize), k + 1),
{
    let w = o.insert(pos, k as usize);
    assert forall|a: int| pos <= a < o.len() implies chans[(#[trigger] o[a]) as int]
        > chans[k] by {
        if a > pos {
            assert(chans[o[pos] as int] < chans[o[a] as int]);
        }
    }
    assert forall|i: int| 0 <= i < k implies #[trigger] chans[i] != chans[k] by {
        assert(covered(chans, o, i));
        let a = choose|a: int| #[trigger] locks(chans, o, a, chans[i]);
        assert(chans[o[a] as int] == chans[i]);
    }
    assert forall|i: int| 0 <= i < k + 1 implies #[trigger] covered(chans, w, i) by {
        if i < k {
            assert(covered(chans, o, i));
            let a = choose|a: int| #[trigger] locks(chans, o, a, chans[i]);
            if a < pos {
                assert(w[a] == o[a]);
                assert(locks(chans, w, a, chans[i]));
            } else {
                assert(w[a + 1] == o[a]);
                assert(locks(chans, w, a + 1, chans[i]));
            }
        } else {
            assert(locks(chans, w, pos, chans[i]));
        }
    }
    assert forall|a: int| 0 <= a < w.len() implies (#[trigger] w[a]) < k + 1 by {
        if a < pos {
            assert(w[a] == o[a]);
        } else if a > pos {
            assert(w[a] == o[a - 1]);
        }
    }
    assert forall|a: int| 0 <= a < w.len() implies first_with(
        chans,
        (#[trigger] w[a]) as int,
    ) by {
        if a < pos {
            assert(w[a] == o[a]);
        } else if a > pos {
            assert(w[a] == o[a - 1]);
        }
    }
    assert forall|a: int, b: int| 0 <= a < b < w.len() implies chans[(#[trigger] w[a]) as int]
        < chans[(#[trigger] w[b]) as int] by {
        if b < pos {
            assert(w[a] == o[a] && w[b] == o[b]);
        } else if b == pos {
            assert(w[a] == o[a]);
        } else if a < pos {
            assert(w[a] == o[a] && w[b] == o[b - 1]);
        } else if a == pos {
            assert(w[b] == o[b - 1]);
        } else {
            assert(w[a] == o[a - 1] && w[b] == o[b - 1]);
        }
    }
}

/// The order in which the channels of some cases are locked, each once.
///
/// Every lock is taken in the order of the channels' numbers, so that two
/// goroutines never wait for each other's locks.
pub fn lock_order<V>(cases: &Vec<SCase<V>>) -> (order: Vec<usize>)
    ensures
        is_lock_order(chans_of(cases@), order@, cases@.len() as int),
{
    let ghost chans = chans_of(cases@);
    let mut order: Vec<usize> = Vec::new();
    let mut k: usize = 0;
    while k < cases.len()
        invariant
            k <= cases@.len(),
            chans == chans_of(cases@),
            is_lock_order(chans, order@, k as int),
        decreases cases@.len() - k,
    {
        let c: usize = cases[k].chan;
        assert(c == chans[k as int]);
        let mut pos: usize = 0;
        while pos < order.len() && cases[order[pos]].chan < c
            invariant
                pos <= order@.len(),
                k < cases@.len(),
                chans == chans_of(cases@),
                forall|a: int| 0 <= a < order@.len() ==> (#[trigger] order@[a]) < k,
                forall|a: int| 0 <= a < pos ==> chans[(#[trigger] order@[a]) as int] < c,
            decreases order@.len() - pos,
        {
            pos = pos + 1;
        }
        let ghost o = order@;
        if pos < order.len() && cases[order[pos]].chan == c {
            assert(locks(chans, o, pos as int, c));
            assert(covered(chans, o, k as int));
        } else {
            proof {
                lemma_lock_inserted(chans, o, k as int, pos as int);
            }
            order.insert(pos, k);
        }
        k = k + 1;
    }
    order
}

/// What looking at some cases has come to.
pub struct Polled<V> {
    /// The case that was ready, and its result.
    pub found: Option<(usize, TryResult)>,
    pub v: ChansView<V>,
    pub gs: Seq<G>,
    pub cases: Seq<SCase<V>>,
}

/// The cases name channels, and those that send have a value.
pub open spec fn cases_ok<V>(cases: Seq<SCase<V>>, nchans: nat) -> bool {
    forall|i: int|
        0 <= i < cases.len() ==> (#[trigger] cases[i]).chan < nchans && (cases[i].send
            ==> cases[i].elem is Some)
}

/// What the cases that send have left of their values: case `index`, if it went
/// through, has nothing; every other has what it had before.
pub open spec fn moved<V>(
    before: Seq<SCase<V>>,
    after: Seq<SCase<V>>,
    index: int,
    ok: bool,
) -> bool {
    &&& after.len() == before.len()
    &&& forall|i: int|
        0 <= i < before.len() && (#[trigger] before[i]).send ==> after[i].elem == (if i == index
            && ok {
            None
        } else {
            before[i].elem
        })
}

impl<V> ChansView<V> {
    /// A try of one case.
    pub open spec fn tried(self, gs: Seq<G>, case: SCase<V>) -> Tried<V> {
        if case.send {
            self.tried_send(gs, case.chan as int, case.elem)
        } else {
            self.tried_recv(gs, case.chan as int, case.elem)
        }
    }

    /// The cases are tried in `order`, from position `k` on, until one is
    /// ready.
    pub open spec fn polled(
        self,
        gs: Seq<G>,
        cases: Seq<SCase<V>>,
        order: Seq<usize>,
        k: nat,
    ) -> Polled<V>
        decreases order.len() - k,
    {
        if k >= order.len() {
            Polled { found: None, v: self, gs, cases }
        } else {
            let i = order[k as int];
            let t = self.tried(gs, cases[i as int]);
            if t.res == TryResult::NotReady {
                t.v.polled(gs, cases, order, k + 1)
            } else {
                Polled {
                    found: Some((i, t.res)),
                    v: t.v,
                    gs: t.gs,
                    cases: cases.update(i as int, SCase { elem: t.elem, ..cases[i as int] }),
                }
            }
        }
    }
}

impl<V> Chans<V> {
    /// Tries the cases in `order` until one is ready.
    fn poll(&mut self, gs: &mut Vec<G>, cases: &mut Vec<SCase<V>>, order: &Vec<usize>) -> (found:
        Option<(usize, TryResult)>)
        requires
            old(self).wf(),
            old(self)@.names(old(gs)@.len()),
            cases_ok(old(cases)@, old(self)@.chans.len()),
            forall|k: int| 0 <= k < order@.len() ==> (#[trigger] order@[k]) < old(cases)@.len(),
        ensures
            final(self).wf(),
            final(self)@.names(final(gs)@.len()),
            final(gs)@.len() == old(gs)@.len(),
            final(self)@.chans.len() == old(self)@.chans.len(),
            final(self)@.pool == old(self)@.pool,
            forall|t: usize| #[trigger] final(self).pool.in_use(t) <==> old(self).pool.in_use(t),
            (Polled { found, v: final(self)@, gs: final(gs)@, cases: final(cases)@ }) == old(self)@.polled(
                old(gs)@,
                old(cases)@,
                order@,
                0,
            ),
            found matches Some((_, r)) ==> r != TryResult::NotReady,
            found matches Some((_, TryResult::Handoff { gp, ok })) ==> gp < final(gs)@.len(),
            found is None ==> final(cases)@ == old(cases)@ && forall|k: int|
                0 <= k < order@.len() ==> final(self)@.chans[old(cases)@[(
                #[trigger] order@[k]) as int].chan as int].blocked(
                    old(cases)@[order@[k] as int].send,
                ),
    {
        let mut k: usize = 0;
        while k < order.len()
            invariant
                k <= order@.len(),
                self.wf(),
                self@.names(gs@.len()),
                gs@ == old(gs)@,
                cases@ == old(cases)@,
                self@.chans.len() == old(self)@.chans.len(),
                self@.pool == old(self)@.pool,
                cases_ok(cases@, self@.chans.len()),
                forall|j: int| 0 <= j < order@.len() ==> (#[trigger] order@[j]) < cases@.len(),
                forall|t: usize| #[trigger]
                    self.pool.in_use(t) <==> old(self).pool.in_use(t),
                self@.polled(gs@, cases@, order@, k as nat) == old(self)@.polled(
                    old(gs)@,
                    old(cases)@,
                    order@,
                    0,
                ),
                forall|j: int|
                    0 <= j < k ==> self@.chans[cases@[(
                    #[trigger] order@[j]) as int].chan as int].blocked(
                        cases@[order@[j] as int].send,
                    ),
            decreases order@.len() - k,
        {
            let i: usize = order[k];
            let ghost s0 = *self;
            let ghost v = self@;
            let ghost gs0 = gs@;
            let ghost cs = cases@;
            let c: usize = cases[i].chan;
            let res: TryResult = if cases[i].send {
                self.try_send(gs, c, &mut cases[i].elem)
            } else {
                self.try_recv(gs, c, &mut cases[i].elem)
            };
            let ghost t = v.tried(gs0, cs[i as int]);
            assert(cases@ =~= cs.update(i as int, SCase { elem: t.elem, ..cs[i as int] }));
            match res {
                TryResult::NotReady => {
                    assert(cases@ =~= cs);
                },
                _ => {
                    proof {
                        if res is Handoff {
                            lemma_wf_sound(s0);
                            lemma_handoff_exists(v, gs0, cs[i as int]);
                        }
                    }
                    return Some((i, res));
                },
            }
            k = k + 1;
        }
        None
    }
}

/// A goroutine that is to be made ready is one that waits.
proof fn lemma_handoff_exists<V>(v: ChansView<V>, gs: Seq<G>, case: SCase<V>)
    requires
        v.names(gs.len()),
        v.tried(gs, case).res is Handoff,
        case.chan < v.chans.len(),
        v.sound(),
    ensures
        v.tried(gs, case).res->gp < gs.len(),
{
}

/// Sudog `sg` is on no queue but perhaps on one side of channel `c`.
pub open spec fn only_on<V>(v: ChansView<V>, sg: usize, c: usize, send: bool) -> bool {
    forall|k: int|
        0 <= k < v.chans.len() ==> ((#[trigger] v.chans[k]).sendq.contains(sg) ==> k == c && send)
            && (v.chans[k].recvq.contains(sg) ==> k == c && !send)
}

/// Case `i` of goroutine `gp` has its sudog, which waits nowhere else.
pub open spec fn enlisted_case<V>(v: ChansView<V>, gp: usize, case: SCase<V>) -> bool {
    &&& case.sg is Some
    &&& case.chan < v.chans.len()
    &&& case.sg->0 < v.sudogs.len()
    &&& v.sudogs[case.sg->0 as int].g == Some(gp)
    &&& v.sudogs[case.sg->0 as int].c == Some(case.chan)
    &&& v.sudogs[case.sg->0 as int].is_select
    &&& only_on(v, case.sg->0, case.chan, case.send)
}

/// Goroutine `gp` waits with all of `cases`, each with a sudog of its own.
pub open spec fn registered<V>(v: ChansView<V>, gp: usize, cases: Seq<SCase<V>>) -> bool {
    &&& forall|i: int| 0 <= i < cases.len() ==> enlisted_case(v, gp, #[trigger] cases[i])
    &&& forall|i: int, j: int|
        0 <= i < j < cases.len() ==> (#[trigger] cases[i]).sg != (#[trigger] cases[j]).sg
}

/// The sudogs of all cases are in use.
pub open spec fn held<V>(s: Chans<V>, cases: Seq<SCase<V>>) -> bool {
    forall|i: int|
        0 <= i < cases.len() ==> (#[trigger] cases[i]).sg is Some && s.pool.in_use(cases[i].sg->0)
}

/// The state after a goroutine has begun to wait with some of its cases.
pub struct Enlisted<V> {
    pub v: ChansView<V>,
    pub cases: Seq<SCase<V>>,
}

impl<V> ChansView<V> {
    /// Goroutine `gp` has begun to wait with the first `n` of `cases`.  What
    /// the cases held is with the sudogs.
    pub open spec fn enlisted(
        self,
        cases: Seq<SCase<V>>,
        p: Option<usize>,
        gp: usize,
        n: nat,
    ) -> Enlisted<V>
        decreases n,
    {
        if n == 0 {
            Enlisted { v: self, cases }
        } else {
            let e = self.enlisted(cases, p, gp, (n - 1) as nat);
            let x = e.cases[n - 1];
            Enlisted {
                v: e.v.after_enqueue(x.chan, x.send, p, gp, x.elem),
                cases: e.cases.update(
                    n - 1,
                    SCase { sg: Some(e.v.pool.acquired(p)), elem: None, ..x },
                ),
            }
        }
    }
}

/// Whoever is on a queue is in use.
proof fn lemma_queued_in_use<V>(s: Chans<V>, c: int, t: usize)
    requires
        s.wf(),
        0 <= c < s@.chans.len(),
        s@.chans[c].sendq.contains(t) || s@.chans[c].recvq.contains(t),
    ensures
        s.pool.in_use(t),
{
    let h = s.chans@[c];
    assert(h.wf(c as usize, s.pool.slots@));
    assert(h@ == s@.chans[c]);
    if h.sendq@.contains(t) {
        let i = h.sendq@.index_of(t);
        assert(s.pool.slots@[h.sendq@[i] as int].q == Some(h.sendq.id));
    } else {
        let i = h.recvq@.index_of(t);
        assert(s.pool.slots@[h.recvq@[i] as int].q == Some(h.recvq.id));
    }
}

/// Another sudog in a queue takes no place away.
proof fn lemma_still_enlisted<V>(
    v: ChansView<V>,
    p: Option<usize>,
    gp: usize,
    x: SCase<V>,
    case: SCase<V>,
)
    requires
        enlisted_case(v, gp, case),
        x.chan < v.chans.len(),
        case.sg != Some(v.pool.acquired(p)),
    ensures
        enlisted_case(v.after_enqueue(x.chan, x.send, p, gp, x.elem), gp, case),
{
    let w = v.after_enqueue(x.chan, x.send, p, gp, x.elem);
    let sg = case.sg->0;
    let new = v.pool.acquired(p);
    assert forall|k: int| 0 <= k < w.chans.len() implies ((#[trigger] w.chans[k]).sendq.contains(sg)
        ==> k == case.chan && case.send) && (w.chans[k].recvq.contains(sg) ==> k == case.chan
        && !case.send) by {
        let a = v.chans[k];
        let b = w.chans[k];
        if b.sendq.contains(sg) {
            let i = b.sendq.index_of(sg);
            assert(a.sendq[i] == sg);
            assert(a.sendq.contains(sg));
        }
        if b.recvq.contains(sg) {
            let i = b.recvq.index_of(sg);
            assert(a.recvq[i] == sg);
            assert(a.recvq.contains(sg));
        }
    }
}

/// A sudog that was on no queue is, after it joined one, on that alone.
proof fn lemma_newly_enlisted<V>(v: ChansView<V>, p: Option<usize>, gp: usize, x: SCase<V>)
    requires
        x.chan < v.chans.len(),
        v.pool.acquired(p) <= v.sudogs.len(),
        forall|k: int|
            0 <= k < v.chans.len() ==> !(#[trigger] v.chans[k]).sendq.contains(v.pool.acquired(p))
                && !v.chans[k].recvq.contains(v.pool.acquired(p)),
    ensures
        enlisted_case(
            v.after_enqueue(x.chan, x.send, p, gp, x.elem),
            gp,
            SCase { sg: Some(v.pool.acquired(p)), elem: None, ..x },
        ),
{
    let w = v.after_enqueue(x.chan, x.send, p, gp, x.elem);
    let sg = v.pool.acquired(p);
    assert forall|k: int| 0 <= k < w.chans.len() implies ((#[trigger] w.chans[k]).sendq.contains(sg)
        ==> k == x.chan && x.send) && (w.chans[k].recvq.contains(sg) ==> k == x.chan && !x.send) by {
        let a = v.chans[k];
        let b = w.chans[k];
        if b.sendq.contains(sg) && !(k == x.chan && x.send) {
            assert(a.sendq =~= b.sendq);
        }
        if b.recvq.contains(sg) && !(k == x.chan && !x.send) {
            assert(a.recvq =~= b.recvq);
        }
    }
}

impl<V> Chans<V> {
    /// Lets goroutine `gp` wait with all of `cases`.
    fn enlist(&mut self, cases: &mut Vec<SCase<V>>, p: Option<usize>, gp: usize, ngs: Ghost<nat>)
        requires
            old(self).wf(),
            old(self)@.names(ngs@),
            gp < ngs@,
            cases_ok(old(cases)@, old(self)@.chans.len()),
            opt_below(p, old(self)@.pool.locals.len()),
            forall|i: int|
                0 <= i < old(cases)@.len() ==> old(self)@.chans[(
                #[trigger] old(cases)@[i]).chan as int].blocked(old(cases)@[i].send),
        ensures
            final(self).wf(),
            final(self)@.names(ngs@),
            (Enlisted { v: final(self)@, cases: final(cases)@ }) == old(self)@.enlisted(
                old(cases)@,
                p,
                gp,
                old(cases)@.len(),
            ),
            registered(final(self)@, gp, final(cases)@),
            held(*final(self), final(cases)@),
    {
        let ghost cs = cases@;
        let mut i: usize = 0;
        while i < cases.len()
            invariant
                i <= cases@.len(),
                cs == old(cases)@,
                cases@.len() == cs.len(),
                self.wf(),
                self@.names(ngs@),
                gp < ngs@,
                cases_ok(cs, self@.chans.len()),
                opt_below(p, self@.pool.locals.len()),
                forall|k: int| i <= k < cs.len() ==> cases@[k] == cs[k],
                forall|k: int|
                    0 <= k < cs.len() ==> self@.chans[(#[trigger] cs[k]).chan as int].blocked(
                        cs[k].send,
                    ),
                (Enlisted { v: self@, cases: cases@ }) == old(self)@.enlisted(
                    cs,
                    p,
                    gp,
                    i as nat,
                ),
                registered(self@, gp, cases@.take(i as int)),
                held(*self, cases@.take(i as int)),
            decreases cases@.len() - i,
        {
            let ghost before = *self;
            let ghost v = self@;
            let ghost done = cases@.take(i as int);
            let ghost here = cases@;
            let ghost x = cases@[i as int];
            assert(x == cs[i as int]);
            let elem: Option<V> = cases[i].elem.take();
            let sg: usize = self.enqueue_waiter(cases[i].chan, cases[i].send, p, gp, elem);
            cases[i].sg = Some(sg);
            let ghost new = SCase { sg: Some(sg), elem: None, ..x };
            proof {
                assert(cases@ =~= here.update(i as int, new));
                assert(cases@.take(i as int + 1) =~= done.push(new));
                assert(v.after_enqueue(x.chan, x.send, p, gp, x.elem) == self@);
                assert forall|k: int| 0 <= k < v.chans.len() implies !(
                #[trigger] v.chans[k]).sendq.contains(sg) && !v.chans[k].recvq.contains(sg) by {
                    if v.chans[k].sendq.contains(sg) || v.chans[k].recvq.contains(sg) {
                        lemma_queued_in_use(before, k, sg);
                    }
                }
                lemma_newly_enlisted(v, p, gp, x);
                let all = done.push(new);
                assert forall|k: int| 0 <= k < all.len() implies enlisted_case(
                    self@,
                    gp,
                    #[trigger] all[k],
                ) by {
                    if k < i {
                        assert(done[k].sg is Some && before.pool.in_use(done[k].sg->0));
                        lemma_still_enlisted(v, p, gp, x, done[k]);
                    }
                }
                assert forall|a: int, b: int| 0 <= a < b < all.len() implies (#[trigger] all[a]).sg
                    != (#[trigger] all[b]).sg by {
                    if b == i {
                        assert(done[a].sg is Some && before.pool.in_use(done[a].sg->0));
                    } else {
                        assert(done[a].sg != done[b].sg);
                    }
                }
                assert(held(*self, all)) by {
                    assert forall|k: int| 0 <= k < all.len() implies (#[trigger] all[k]).sg is Some
                        && self.pool.in_use(all[k].sg->0) by {
                        if k < i {
                            assert(before.pool.in_use(done[k].sg->0));
                        }
                    }
                }
                assert forall|k: int| 0 <= k < cs.len() implies self@.chans[(
                #[trigger] cs[k]).chan as int].blocked(cs[k].send) by {
                    assert(v.chans[cs[k].chan as int].blocked(cs[k].send));
                }
            }
            i = i + 1;
        }
        assert(cases@.take(i as int) =~= cases@);
    }
}

/// What a goroutine that selects does next.
#[derive(Copy, Clone, Debug, PartialEq, Eq, Structural)]
pub enum SelectStep {
    /// Case `index` went through; `CASE_DEFAULT` where none could.  The goroutine
    /// in `retry` was about to park and is to be made ready again until it is.
    Chosen { index: usize, ok: bool, retry: Option<usize> },
    /// It wanted to send on a closed channel, which is an error.
    ClosedSend,
    /// It parks.
    Park,
}

impl RtView {
    /// The processor of thread `m`.
    pub open spec fn processor(self, m: Option<usize>) -> Option<usize> {
        match m {
            Some(m) => self.ms[m as int].p,
            None => None,
        }
    }

    /// The number of goroutine `gp`.
    pub open spec fn number(self, gp: Option<usize>) -> Option<u64> {
        match gp {
            Some(gp) => Some(self.gs[gp as int].goid),
            None => None,
        }
    }

    /// The state with other goroutines.
    pub open spec fn with_gs(self, gs: Seq<G>) -> RtView {
        RtView { gs, ..self }
    }
}

/// The step and the state to which a `select` comes, when its cases were looked
/// at with the result `q`.
pub open spec fn selected<V>(
    q: Polled<V>,
    rt: RtView,
    m: Option<usize>,
    gp: Option<usize>,
    has_default: bool,
) -> (SelectStep, RtView, Enlisted<V>) {
    let now = rt.with_gs(q.gs);
    let as_is = Enlisted { v: q.v, cases: q.cases };
    match q.found {
        Some((index, TryResult::Done { ok })) => (
            SelectStep::Chosen { index, ok, retry: None },
            now,
            as_is,
        ),
        Some((index, TryResult::Handoff { gp: other, ok })) => {
            let retry = if now.gs[other as int].readiness() == Ready::Spin {
                Some(other)
            } else {
                None
            };
            (SelectStep::Chosen { index, ok, retry }, now.readied(m, other), as_is)
        },
        Some(_) => (SelectStep::ClosedSend, now, as_is),
        None => if has_default {
            (SelectStep::Chosen { index: CASE_DEFAULT, ok: false, retry: None }, now, as_is)
        } else {
            let g = now.gs[gp->0 as int];
            (
                SelectStep::Park,
                now.with_g(
                    gp->0 as int,
                    G { selectdone: 0, param: None, waitreason: WaitReason::Select, ..g },
                ),
                q.v.enlisted(q.cases, rt.processor(m), gp->0, q.cases.len()),
            )
        },
    }
}

/// Goroutine `gp` is about to park, with nothing claimed yet.
fn begin_select(rt: &mut Rt, gp: usize)
    requires
        old(rt).wf(),
        gp < old(rt)@.gs.len(),
    ensures
        final(rt).wf(),
        final(rt)@ == old(rt)@.with_g(
            gp as int,
            G {
                selectdone: 0,
                param: None,
                waitreason: WaitReason::Select,
                ..old(rt)@.gs[gp as int]
            },
        ),
{
    rt.gs[gp].selectdone = 0;
    rt.gs[gp].param = None;
    assert(rt@.ps =~= old(rt)@.ps);
    rt.gopark(gp, WaitReason::Select);
    assert(rt@.gs =~= old(rt)@.gs.update(
        gp as int,
        G {
            selectdone: 0,
            param: None,
            waitreason: WaitReason::Select,
            ..old(rt)@.gs[gp as int]
        },
    ));
}

/// Lets goroutine `gp`, on thread `m`, choose among `cases`.
///
/// The cases are looked at in an order that is as good as random.  The first
/// that can go through does.  Where none can, the default is taken if there is
/// one; otherwise the goroutine waits with all of them, and
/// [`selectgo_finish`] is called when it is awake again.
pub fn selectgo<V>(
    s: &mut Chans<V>,
    rt: &mut Rt,
    m: Option<usize>,
    gp: Option<usize>,
    cases: &mut Vec<SCase<V>>,
    has_default: bool,
) -> (step: SelectStep)
    requires
        old(s).wf(),
        old(rt).wf(),
        old(s)@.names(old(rt)@.gs.len()),
        opt_below(m, old(rt)@.ms.len()),
        opt_below(gp, old(rt)@.gs.len()),
        has_default || gp is Some,
        cases_ok(old(cases)@, old(s)@.chans.len()),
        opt_below(old(rt)@.processor(m), old(s)@.pool.locals.len()),
    ensures
        final(s).wf(),
        final(rt).wf(),
        final(s)@.names(final(rt)@.gs.len()),
        ({
            let order = poll_order_of(old(cases)@.len(), old(rt)@.number(gp));
            let q = old(s)@.polled(old(rt)@.gs, old(cases)@, order, 0);
            (step, final(rt)@, Enlisted { v: final(s)@, cases: final(cases)@ }) == selected(
                q,
                old(rt)@,
                m,
                gp,
                has_default,
            )
        }),
        step == SelectStep::Park ==> registered(final(s)@, gp->0, final(cases)@) && held(
            *final(s),
            final(cases)@,
        ),
        step matches SelectStep::Chosen { index, ok, .. } ==> moved(
            old(cases)@,
            final(cases)@,
            index as int,
            ok,
        ),
        step == SelectStep::ClosedSend ==> moved(old(cases)@, final(cases)@, 0, false),
{
    let goid: Option<u64> = match gp {
        Some(gp) => Some(rt.gs[gp].goid),
        None => None,
    };
    let order = poll_order(cases.len(), goid);
    let ghost cs = cases@;
    proof {
        assert(cases.len() == cs.len());
        poll_order_is_a_permutation(cs.len(), goid);
        assert forall|k: int| 0 <= k < order@.len() implies (#[trigger] order@[k]) < cs.len() by {
            assert(order@.contains(order@[k]));
        }
    }
    let ghost rt0 = rt@;
    let ghost v0 = s@;
    let found = s.poll(&mut rt.gs, cases, &order);
    let ghost mid = rt@;
    proof {
        lemma_polled_moves(v0, rt0.gs, cs, order@, 0);
    }
    assert(mid =~= rt0.with_gs(rt.gs@));
    assert(rt.wf());
    match found {
        Some((index, TryResult::Done { ok })) => SelectStep::Chosen { index, ok, retry: None },
        Some((index, TryResult::Handoff { gp: other, ok })) => {
            proof {
                ready_touches_only_its_goroutine(mid, m, other);
            }
            match rt.goready_step(m, other) {
                Ready::Spin => SelectStep::Chosen { index, ok, retry: Some(other) },
                _ => SelectStep::Chosen { index, ok, retry: None },
            }
        },
        Some(_) => SelectStep::ClosedSend,
        None => {
            if has_default {
                return SelectStep::Chosen { index: CASE_DEFAULT, ok: false, retry: None };
            }
            let gi: usize = gp.unwrap();
            let p: Option<usize> = match m {
                Some(m) => rt.ms[m].p,
                None => None,
            };
            proof {
                assert forall|i: int| 0 <= i < cs.len() implies s@.chans[(
                #[trigger] cs[i]).chan as int].blocked(cs[i].send) by {
                    assert(order@.contains(i as usize));
                    let k = order@.index_of(i as usize);
                    assert(order@[k] == i);
                }
            }
            s.enlist(cases, p, gi, Ghost(rt@.gs.len()));
            begin_select(rt, gi);
            SelectStep::Park
        },
    }
}

/// Sudog `t` belongs to one of the first `n` cases, and not to the one that won.
pub open spec fn is_loser<V>(cases: Seq<SCase<V>>, w: int, n: int, t: usize) -> bool {
    exists|i: int| 0 <= i < n && i != w && (#[trigger] cases[i]).sg == Some(t)
}

/// A queue without the sudogs of the first `n` cases that lost.
pub open spec fn kept<V>(q: Seq<usize>, cases: Seq<SCase<V>>, w: int, n: int) -> Seq<usize> {
    q.filter(|t: usize| !is_loser(cases, w, n, t))
}

impl<V> ChansView<V> {
    /// The first `n` cases, as far as they lost, wait on no channel any more.
    pub open spec fn unqueued(self, cases: Seq<SCase<V>>, w: int, n: int) -> ChansView<V> {
        ChansView {
            chans: Seq::new(
                self.chans.len(),
                |c: int|
                    ChanView {
                        sendq: kept(self.chans[c].sendq, cases, w, n),
                        recvq: kept(self.chans[c].recvq, cases, w, n),
                        ..self.chans[c]
                    },
            ),
            ..self
        }
    }

    /// The sudogs of the first `n` cases were cleared and given back, by a
    /// goroutine on processor `p`.
    pub open spec fn given_back(
        self,
        cases: Seq<SCase<V>>,
        p: Option<usize>,
        n: nat,
    ) -> ChansView<V>
        decreases n,
    {
        if n == 0 {
            self
        } else {
            let v = self.given_back(cases, p, (n - 1) as nat);
            let sg = cases[n - 1].sg->0;
            ChansView {
                pool: v.pool.after_release(p, sg),
                ..v.with_sudog(
                    sg as int,
                    Sudog { g: None, elem: Elem::Null, c: None, ..v.sudogs[sg as int] },
                )
            }
        }
    }

    /// A case after its sudog's value came back to it.
    pub open spec fn recovered(self, case: SCase<V>) -> SCase<V> {
        let e = self.sudogs[case.sg->0 as int].elem;
        SCase {
            sg: None,
            elem: if e is Slot {
                e->0
            } else {
                None
            },
            ..case
        }
    }
}

/// Taking one more value out of a row without duplicates.
proof fn lemma_filter_one_more(
    q: Seq<usize>,
    f: spec_fn(usize) -> bool,
    g: spec_fn(usize) -> bool,
    x: usize,
)
    requires
        q.no_duplicates(),
        forall|t: usize| #[trigger] g(t) == (f(t) && t != x),
    ensures
        q.filter(f).no_duplicates(),
        forall|t: usize| #[trigger] q.filter(f).contains(t) <==> q.contains(t) && f(t),
        q.filter(g) == (if q.filter(f).contains(x) {
            q.filter(f).remove(q.filter(f).index_of(x))
        } else {
            q.filter(f)
        }),
    decreases q.len(),
{
    reveal(Seq::filter);
    if q.len() > 0 {
        let r = q.drop_last();
        let y = q.last();
        assert(r.no_duplicates());
        lemma_filter_one_more(r, f, g, x);
        let fr = r.filter(f);
        let fq = q.filter(f);
        let gr = r.filter(g);
        assert(!r.contains(y)) by {
            if r.contains(y) {
                let i = r.index_of(y);
                assert(q[i] == y);
            }
        }
        assert forall|t: usize| #[trigger] fq.contains(t) <==> q.contains(t) && f(t) by {
            if fq.contains(t) {
                let i = fq.index_of(t);
                if i < fr.len() {
                    assert(fr[i] == t);
                    assert(fr.contains(t));
                    let j = r.index_of(t);
                    assert(q[j] == t);
                } else {
                    assert(q[q.len() - 1] == t);
                }
            }
            if q.contains(t) && f(t) {
                let j = q.index_of(t);
                if j < r.len() {
                    assert(r[j] == t);
                    assert(fr.contains(t));
                    let i = fr.index_of(t);
                    assert(fq[i] == t);
                } else {
                    assert(fq[fr.len() as int] == t);
                }
            }
        }
        assert(fq.no_duplicates()) by {
            if f(y) {
                assert forall|a: int, b: int| 0 <= a < fq.len() && 0 <= b < fq.len() && a != b implies fq[a]
                    != fq[b] by {
                    if a == fr.len() {
                        assert(fr[b] == fq[b]);
                        assert(fr.contains(fq[b]));
                    }
                    if b == fr.len() {
                        assert(fr[a] == fq[a]);
                        assert(fr.contains(fq[a]));
                    }
                }
            }
        }
        if y == x {
            assert(!fr.contains(x));
            assert(gr == fr);
            if f(y) {
                assert(fq[fr.len() as int] == x);
                assert(fq.contains(x));
                assert(fq.index_of(x) == fr.len());
                assert(fq.remove(fr.len() as int) =~= fr);
            }
        } else if fr.contains(x) {
            let i = fr.index_of(x);
            assert(fq[i] == x);
            assert(fq.contains(x));
            assert(fq.index_of(x) == i);
            if f(y) {
                assert(fq.remove(i) =~= fr.remove(i).push(y));
            }
        } else {
            assert(!fq.contains(x)) by {
                if fq.contains(x) {
                    let i = fq.index_of(x);
                    if i < fr.len() {
                        assert(fr[i] == x);
                    }
                }
            }
        }
    }
}

/// How one more case changes what a queue keeps.
proof fn lemma_kept_step<V>(q: Seq<usize>, cases: Seq<SCase<V>>, w: int, n: int)
    requires
        q.no_duplicates(),
        0 <= n < cases.len(),
        cases[n].sg is Some,
    ensures
        n == w ==> kept(q, cases, w, n + 1) == kept(q, cases, w, n),
        n != w ==> kept(q, cases, w, n + 1) == (if kept(q, cases, w, n).contains(cases[n].sg->0) {
            kept(q, cases, w, n).remove(kept(q, cases, w, n).index_of(cases[n].sg->0))
        } else {
            kept(q, cases, w, n)
        }),
        kept(q, cases, w, n).no_duplicates(),
        forall|t: usize| #[trigger]
            kept(q, cases, w, n).contains(t) <==> q.contains(t) && !is_loser(cases, w, n, t),
{
    let x = cases[n].sg->0;
    let f = |t: usize| !is_loser(cases, w, n, t);
    let g = |t: usize| !is_loser(cases, w, n + 1, t);
    assert forall|t: usize| is_loser(cases, w, n, t) implies is_loser(cases, w, n + 1, t) by {
        let i = choose|i: int| 0 <= i < n && i != w && (#[trigger] cases[i]).sg == Some(t);
        assert(cases[i].sg == Some(t));
    }
    assert forall|t: usize| is_loser(cases, w, n + 1, t) && !is_loser(cases, w, n, t) implies n != w
        && t == x by {
        let i = choose|i: int| 0 <= i < n + 1 && i != w && (#[trigger] cases[i]).sg == Some(t);
        assert(i == n);
    }
    if n != w {
        assert(is_loser(cases, w, n + 1, x)) by {
            assert(cases[n].sg == Some(x));
        }
        assert forall|t: usize| #[trigger] g(t) == (f(t) && t != x) by {}
        lemma_filter_one_more(q, f, g, x);
    } else {
        assert(f =~= g);
        let h = |t: usize| f(t) && t != x;
        lemma_filter_one_more(q, f, h, x);
    }
}

/// Nothing changes where no case has been dealt with.
proof fn lemma_kept_none<V>(q: Seq<usize>, cases: Seq<SCase<V>>, w: int)
    ensures
        kept(q, cases, w, 0) == q,
    decreases q.len(),
{
    reveal(Seq::filter);
    if q.len() > 0 {
        lemma_kept_none(q.drop_last(), cases, w);
        assert(q.drop_last().push(q.last()) =~= q);
    }
}

/// A sudog that no queue has is linked nowhere.
proof fn lemma_linked_nowhere<V>(s: Chans<V>, t: usize)
    requires
        s.wf(),
        t < s.pool.slots@.len(),
        forall|c: int|
            0 <= c < s@.chans.len() ==> !(#[trigger] s@.chans[c]).sendq.contains(t)
                && !s@.chans[c].recvq.contains(t),
    ensures
        s.pool.slots@[t as int].q is None,
{
    if s.pool.slots@[t as int].q is Some {
        let id = s.pool.slots@[t as int].q->0;
        let c = (id / 2) as int;
        let h = s.chans@[c];
        assert(h.wf(c as usize, s.pool.slots@));
        assert(h@ == s@.chans[c]);
        assert(h.sendq@.contains(t) || h.recvq@.contains(t));
    }
}

/// Taking the sudog of case `n` off its queue.
proof fn lemma_unqueued_step<V>(v: ChansView<V>, gp: usize, cases: Seq<SCase<V>>, w: int, n: int)
    requires
        v.sound(),
        v.chans.len() <= usize::MAX,
        registered(v, gp, cases),
        0 <= n < cases.len(),
    ensures
        n == w ==> v.unqueued(cases, w, n + 1) == v.unqueued(cases, w, n),
        n != w ==> ({
            let u = v.unqueued(cases, w, n);
            let x = cases[n];
            let ch = u.chans[x.chan as int];
            let q = ch.queue(x.send);
            v.unqueued(cases, w, n + 1) == u.with_chan(
                x.chan as int,
                ch.with_queue(
                    x.send,
                    if q.contains(x.sg->0) {
                        q.remove(q.index_of(x.sg->0))
                    } else {
                        q
                    },
                ),
            )
        }),
{
    let u = v.unqueued(cases, w, n);
    let z = v.unqueued(cases, w, n + 1);
    let x = cases[n];
    assert(enlisted_case(v, gp, x));
    assert forall|c: int| 0 <= c < v.chans.len() implies #[trigger] z.chans[c] == (if n != w && c
        == x.chan {
        let ch = u.chans[c];
        let q = ch.queue(x.send);
        ch.with_queue(
            x.send,
            if q.contains(x.sg->0) {
                q.remove(q.index_of(x.sg->0))
            } else {
                q
            },
        )
    } else {
        u.chans[c]
    }) by {
        assert(v.chans[c as usize as int].sound());
        lemma_kept_step(v.chans[c].sendq, cases, w, n);
        lemma_kept_step(v.chans[c].recvq, cases, w, n);
    }
    if n == w {
        assert(z.chans =~= u.chans);
    } else {
        let ch = u.chans[x.chan as int];
        let q = ch.queue(x.send);
        assert(z.chans =~= u.chans.update(
            x.chan as int,
            ch.with_queue(
                x.send,
                if q.contains(x.sg->0) {
                    q.remove(q.index_of(x.sg->0))
                } else {
                    q
                },
            ),
        ));
    }
}

/// After all losers left the queues, no sudog of a case is on any.
proof fn lemma_all_unqueued<V>(v: ChansView<V>, cases: Seq<SCase<V>>, w: int, i: int, c: int)
    requires
        v.sound(),
        v.chans.len() <= usize::MAX,
        0 <= w < cases.len(),
        0 <= i < cases.len(),
        0 <= c < v.chans.len(),
        cases[cases.len() - 1].sg is Some,
        cases[i].sg is Some,
        !v.chans[c].sendq.contains(cases[w].sg->0),
        !v.chans[c].recvq.contains(cases[w].sg->0),
    ensures
        !v.unqueued(cases, w, cases.len() as int).chans[c].sendq.contains(cases[i].sg->0),
        !v.unqueued(cases, w, cases.len() as int).chans[c].recvq.contains(cases[i].sg->0),
{
    let n = cases.len() as int;
    let t = cases[i].sg->0;
    assert(v.chans[c as usize as int].sound());
    let f = |t: usize| !is_loser(cases, w, n, t);
    let h = |x: usize| f(x) && x != t;
    lemma_filter_one_more(v.chans[c].sendq, f, h, t);
    lemma_filter_one_more(v.chans[c].recvq, f, h, t);
    if i != w {
        assert(is_loser(cases, w, n, t)) by {
            assert(cases[i].sg == Some(t));
        }
    }
}

impl<V> Chans<V> {
    /// Takes the sudogs of all cases but `w` off the queues.
    fn unqueue_losers(&mut self, cases: &Vec<SCase<V>>, w: usize, gp: Ghost<usize>)
        requires
            old(self).wf(),
            registered(old(self)@, gp@, cases@),
            w < cases@.len(),
        ensures
            final(self).wf(),
            final(self)@ == old(self)@.unqueued(cases@, w as int, cases@.len() as int),
            forall|t: usize| #[trigger] final(self).pool.in_use(t) <==> old(self).pool.in_use(t),
    {
        let ghost v = self@;
        let mut i: usize = 0;
        proof {
            lemma_wf_sound(*self);
            assert forall|c: int| 0 <= c < v.chans.len() implies #[trigger] v.unqueued(
                cases@,
                w as int,
                0,
            ).chans[c] == v.chans[c] by {
                lemma_kept_none(v.chans[c].sendq, cases@, w as int);
                lemma_kept_none(v.chans[c].recvq, cases@, w as int);
            }
            assert(v.unqueued(cases@, w as int, 0).chans =~= v.chans);
            assert(self.chans.len() == v.chans.len());
        }
        while i < cases.len()
            invariant
                i <= cases@.len(),
                v == old(self)@,
                v.sound(),
                v.chans.len() <= usize::MAX,
                self.wf(),
                registered(v, gp@, cases@),
                self@ == v.unqueued(cases@, w as int, i as int),
                forall|t: usize| #[trigger]
                    self.pool.in_use(t) <==> old(self).pool.in_use(t),
            decreases cases@.len() - i,
        {
            proof {
                lemma_unqueued_step(v, gp@, cases@, w as int, i as int);
                assert(enlisted_case(v, gp@, cases@[i as int]));
            }
            if i != w {
                let sg: usize = cases[i].sg.unwrap();
                let _ = self.remove_waiter(cases[i].chan, cases[i].send, sg);
            }
            i = i + 1;
        }
    }

    /// Clears sudog `sg`, which is on no queue, and gives it back; hands out the
    /// value that it had.
    fn give_back(&mut self, p: Option<usize>, sg: usize) -> (elem: Option<V>)
        requires
            old(self).wf(),
            old(self).pool.in_use(sg),
            old(self).pool.slots@[sg as int].q is None,
            opt_below(p, old(self)@.pool.locals.len()),
        ensures
            final(self).wf(),
            final(self)@ == (ChansView {
                pool: old(self)@.pool.after_release(p, sg),
                ..old(self)@.with_sudog(
                    sg as int,
                    Sudog { g: None, elem: Elem::Null, c: None, ..old(self)@.sudogs[sg as int] },
                )
            }),
            elem == (if old(self)@.sudogs[sg as int].elem is Slot {
                old(self)@.sudogs[sg as int].elem->0
            } else {
                None
            }),
            forall|t: usize| #[trigger]
                final(self).pool.in_use(t) <==> t != sg && old(self).pool.in_use(t),
            final(self)@.pool.locals.len() == old(self)@.pool.locals.len(),
    {
        let mut x: Sudog<V> = self.replace_sudog(sg, Sudog::zeroed());
        let mut e: Elem<V> = Elem::Null;
        std::mem::swap(&mut e, &mut x.elem);
        x.g = None;
        x.c = None;
        x.next = None;
        x.prev = None;
        x.q = None;
        let _ = self.replace_sudog(sg, x);
        let ghost mid = *self;
        proof {
            assert(mid@.sudogs =~= old(self)@.sudogs.update(
                sg as int,
                Sudog { g: None, elem: Elem::Null, c: None, ..old(self)@.sudogs[sg as int] },
            ));
            assert(mid@.sudogs[sg as int] == mid.pool.slots@[sg as int].unlinked());
        }
        self.pool.release_sudog(p, sg);
        proof {
            assert forall|c: usize| c < self.chans@.len() implies (
            #[trigger] self.chans@[c as int]).wf(c, self.pool.slots@) by {
                assert(mid.chans@[c as int].wf(c, mid.pool.slots@));
            }
            assert(self@.chans =~= old(self)@.chans);
            assert(self@.sudogs =~= mid@.sudogs);
        }
        match e {
            Elem::Null => None,
            Elem::Slot(o) => o,
        }
    }
}

/// Ends the wait of goroutine `gp`, on thread `m`, after one of its `cases` went
/// through.
///
/// Gives back which one, and whether it really exchanged a value.  The other
/// cases leave their queues; the values are with the cases again.
pub fn selectgo_finish<V>(
    s: &mut Chans<V>,
    rt: &mut Rt,
    m: Option<usize>,
    gp: usize,
    cases: &mut Vec<SCase<V>>,
) -> (r: (usize, bool))
    requires
        old(s).wf(),
        old(rt).wf(),
        opt_below(m, old(rt)@.ms.len()),
        gp < old(rt)@.gs.len(),
        opt_below(old(rt)@.processor(m), old(s)@.pool.locals.len()),
        registered(old(s)@, gp, old(cases)@),
        held(*old(s), old(cases)@),
        old(s)@.names(old(rt)@.gs.len()),
        old(rt)@.gs[gp as int].param is Some,
        exists|w: int|
            0 <= w < old(cases)@.len() && (#[trigger] old(cases)@[w]).sg
                == old(rt)@.gs[gp as int].param,
        forall|c: int|
            0 <= c < old(s)@.chans.len() ==> !(#[trigger] old(s)@.chans[c]).sendq.contains(
                old(rt)@.gs[gp as int].param->0,
            ) && !old(s)@.chans[c].recvq.contains(old(rt)@.gs[gp as int].param->0),
    ensures
        final(s).wf(),
        final(rt).wf(),
        final(s)@.names(final(rt)@.gs.len()),
        r.0 < old(cases)@.len(),
        old(cases)@[r.0 as int].sg == old(rt)@.gs[gp as int].param,
        r.1 == old(s)@.sudogs[old(rt)@.gs[gp as int].param->0 as int].success,
        final(s)@ == old(s)@.unqueued(old(cases)@, r.0 as int, old(cases)@.len() as int).given_back(
            old(cases)@,
            old(rt)@.processor(m),
            old(cases)@.len(),
        ),
        final(cases)@.len() == old(cases)@.len(),
        forall|i: int|
            0 <= i < old(cases)@.len() ==> #[trigger] final(cases)@[i] == old(s)@.recovered(
                old(cases)@[i],
            ),
        final(rt)@ == old(rt)@.with_g(
            gp as int,
            G { param: None, ..old(rt)@.gs[gp as int] },
        ),
        forall|t: usize| #[trigger]
            final(s).pool.in_use(t) <==> old(s).pool.in_use(t) && !(exists|i: int|
                0 <= i < old(cases)@.len() && (#[trigger] old(cases)@[i]).sg == Some(t)),
{
    let ghost v = s@;
    let ghost cs = cases@;
    let sg: usize = rt.gs[gp].param.unwrap();
    rt.gs[gp].param = None;
    assert(rt@ =~= old(rt)@.with_g(gp as int, G { param: None, ..old(rt)@.gs[gp as int] }));
    let mut w: usize = 0;
    while !is_sudog(&cases[w].sg, sg)
        invariant
            w < cases@.len(),
            exists|i: int| w <= i < cases@.len() && (#[trigger] cases@[i]).sg == Some(sg),
        decreases cases@.len() - w,
    {
        assert(w < cases.len());
        w = w + 1;
    }
    proof {
        assert(enlisted_case(v, gp, cs[w as int]));
        lemma_wf_sound(*s);
        assert(s.chans.len() == v.chans.len());
    }
    let ok: bool = s.pool.slots[sg].success;
    assert(ok == v.sudogs[sg as int].success);
    s.unqueue_losers(cases, w, Ghost(gp));
    let p: Option<usize> = match m {
        Some(m) => rt.ms[m].p,
        None => None,
    };
    let ghost u = s@;
    let mut i: usize = 0;
    while i < cases.len()
        invariant
            i <= cases@.len(),
            cs == old(cases)@,
            cases@.len() == cs.len(),
            v == old(s)@,
            v.sound(),
            v.chans.len() <= usize::MAX,
            u == v.unqueued(cs, w as int, cs.len() as int),
            w < cs.len(),
            cs[w as int].sg == Some(sg),
            registered(v, gp, cs),
            held(*old(s), cs),
            v.names(rt@.gs.len()),
            s@.names(rt@.gs.len()),
            forall|c: int|
                0 <= c < v.chans.len() ==> !(#[trigger] v.chans[c]).sendq.contains(sg)
                    && !v.chans[c].recvq.contains(sg),
            s.wf(),
            opt_below(p, s@.pool.locals.len()),
            s@ == u.given_back(cs, p, i as nat),
            s@.chans == u.chans,
            forall|k: int| i <= k < cs.len() ==> cases@[k] == cs[k],
            forall|k: int| 0 <= k < i ==> #[trigger] cases@[k] == v.recovered(cs[k]),
            forall|k: int|
                i <= k < cs.len() ==> s@.sudogs[(#[trigger] cs[k]).sg->0 as int]
                    == v.sudogs[cs[k].sg->0 as int],
            s@.sudogs.len() == v.sudogs.len(),
            forall|t: usize| #[trigger]
                s.pool.in_use(t) <==> old(s).pool.in_use(t) && !(exists|k: int|
                    0 <= k < i && (#[trigger] cs[k]).sg == Some(t)),
        decreases cases@.len() - i,
    {
        let ghost before = s@;
        let ghost here = cases@;
        let t: usize = cases[i].sg.unwrap();
        proof {
            assert(enlisted_case(v, gp, cs[i as int]));
            assert forall|c: int| 0 <= c < s@.chans.len() implies !(
            #[trigger] s@.chans[c]).sendq.contains(t) && !s@.chans[c].recvq.contains(t) by {
                assert(enlisted_case(v, gp, cs[cs.len() - 1]));
                assert(!v.chans[c].sendq.contains(sg));
                lemma_all_unqueued(v, cs, w as int, i as int, c);
            }
            lemma_linked_nowhere(*s, t);
            assert(s.pool.in_use(t)) by {
                assert(old(s).pool.in_use(cs[i as int].sg->0));
                if exists|k: int| 0 <= k < i && (#[trigger] cs[k]).sg == Some(t) {
                    let k = choose|k: int| 0 <= k < i && (#[trigger] cs[k]).sg == Some(t);
                    assert(cs[k].sg != cs[i as int].sg);
                }
            }
        }
        let ghost used = *s;
        let e: Option<V> = s.give_back(p, t);
        cases[i].sg = None;
        cases[i].elem = e;
        proof {
            assert(cases@ =~= here.update(i as int, v.recovered(cs[i as int])));
            assert forall|k: int| i + 1 <= k < cs.len() implies s@.sudogs[(
            #[trigger] cs[k]).sg->0 as int] == v.sudogs[cs[k].sg->0 as int] by {
                assert(cs[i as int].sg != cs[k].sg);
                assert(enlisted_case(v, gp, cs[k]));
            }
            assert forall|x: usize| #[trigger]
                s.pool.in_use(x) <==> old(s).pool.in_use(x) && !(exists|k: int|
                    0 <= k < i + 1 && (#[trigger] cs[k]).sg == Some(x)) by {
                assert(used.pool.in_use(x) <==> old(s).pool.in_use(x) && !(exists|k: int|
                    0 <= k < i && (#[trigger] cs[k]).sg == Some(x)));
                if x == t {
                    assert(cs[i as int].sg == Some(x));
                }
                if exists|k: int| 0 <= k < i && (#[trigger] cs[k]).sg == Some(x) {
                    let k = choose|k: int| 0 <= k < i && (#[trigger] cs[k]).sg == Some(x);
                    assert(cs[k].sg == Some(x));
                }
            }
        }
        i = i + 1;
    }
    (w, ok)
}

/// Is this the sudog?
fn is_sudog(o: &Option<usize>, sg: usize) -> (b: bool)
    ensures
        b == (*o == Some(sg)),
{
    match *o {
        Some(x) => x == sg,
        None => false,
    }
}

/// A case that is not ready leaves all others as ready as they were.
proof fn lemma_try_in_vain<V>(v: ChansView<V>, gs: Seq<G>, x: SCase<V>, y: SCase<V>)
    requires
        v.tried(gs, x).res == TryResult::NotReady,
        x.chan < v.chans.len(),
        y.chan < v.chans.len(),
    ensures
        v.tried(gs, x).v.tried(gs, y).res == v.tried(gs, y).res,
        v.tried(gs, x).v.chans.len() == v.chans.len(),
{
    lemma_first_claimable(v.chans[x.chan as int].recvq, v.sudogs, gs, 0);
    lemma_first_claimable(v.chans[x.chan as int].sendq, v.sudogs, gs, 0);
}

proof fn lemma_polled<V>(v: ChansView<V>, gs: Seq<G>, cases: Seq<SCase<V>>, order: Seq<usize>, k: nat)
    requires
        cases_ok(cases, v.chans.len()),
        forall|j: int| 0 <= j < order.len() ==> (#[trigger] order[j]) < cases.len(),
        k <= order.len(),
    ensures
        v.polled(gs, cases, order, k).found is None <==> forall|j: int|
            k <= j < order.len() ==> v.tried(gs, cases[(#[trigger] order[j]) as int]).res
                == TryResult::NotReady,
        v.polled(gs, cases, order, k).found matches Some((i, r)) ==> exists|j: int|
            k <= j < order.len() && (#[trigger] order[j]) == i && v.tried(
                gs,
                cases[i as int],
            ).res == r && r != TryResult::NotReady && forall|l: int|
                k <= l < j ==> v.tried(gs, cases[(#[trigger] order[l]) as int]).res
                    == TryResult::NotReady,
    decreases order.len() - k,
{
    if k < order.len() {
        let x = cases[order[k as int] as int];
        let t = v.tried(gs, x);
        if t.res == TryResult::NotReady {
            let u = t.v;
            assert(u.chans.len() == v.chans.len());
            assert forall|j: int| 0 <= j < order.len() implies u.tried(
                gs,
                cases[(#[trigger] order[j]) as int],
            ).res == v.tried(gs, cases[order[j] as int]).res by {
                lemma_try_in_vain(v, gs, x, cases[order[j] as int]);
            }
            lemma_polled(u, gs, cases, order, k + 1);
            let q = v.polled(gs, cases, order, k);
            assert(q == u.polled(gs, cases, order, k + 1));
            if q.found is Some {
                let i = match q.found {
                    Some((i, _)) => i,
                    None => 0,
                };
                let r = match q.found {
                    Some((_, r)) => r,
                    None => TryResult::NotReady,
                };
                let j = choose|j: int|
                    k + 1 <= j < order.len() && (#[trigger] order[j]) == i && u.tried(
                        gs,
                        cases[i as int],
                    ).res == r && r != TryResult::NotReady && forall|l: int|
                        k + 1 <= l < j ==> u.tried(gs, cases[(#[trigger] order[l]) as int]).res
                            == TryResult::NotReady;
                assert(order[j] == i);
                assert forall|l: int| k <= l < j implies v.tried(
                    gs,
                    cases[(#[trigger] order[l]) as int],
                ).res == TryResult::NotReady by {
                    if l > k {
                        assert(u.tried(gs, cases[order[l] as int]).res == TryResult::NotReady);
                    }
                }
            }
        } else {
            assert(order[k as int] == order[k as int]);
        }
    }
}

/// Of the cases that were looked at, only one that sends and went through has
/// lost its value.
proof fn lemma_polled_moves<V>(
    v: ChansView<V>,
    gs: Seq<G>,
    cases: Seq<SCase<V>>,
    order: Seq<usize>,
    k: nat,
)
    requires
        forall|j: int| 0 <= j < order.len() ==> (#[trigger] order[j]) < cases.len(),
    ensures
        ({
            let q = v.polled(gs, cases, order, k);
            match q.found {
                None => q.cases == cases,
                Some((i, r)) => moved(
                    cases,
                    q.cases,
                    i as int,
                    match r {
                        TryResult::Done { ok } => ok,
                        TryResult::Handoff { ok, .. } => ok,
                        _ => false,
                    },
                ),
            }
        }),
    decreases order.len() - k,
{
    if k < order.len() {
        let t = v.tried(gs, cases[order[k as int] as int]);
        if t.res == TryResult::NotReady {
            lemma_polled_moves(t.v, gs, cases, order, k + 1);
        }
    }
}

/// A `select` takes the first case, in the order of looking, that is ready; it
/// takes none only where none is.
pub proof fn first_ready_case_is_taken<V>(
    v: ChansView<V>,
    gs: Seq<G>,
    cases: Seq<SCase<V>>,
    order: Seq<usize>,
)
    requires
        cases_ok(cases, v.chans.len()),
        forall|j: int| 0 <= j < order.len() ==> (#[trigger] order[j]) < cases.len(),
    ensures
        v.polled(gs, cases, order, 0).found is None <==> forall|j: int|
            0 <= j < order.len() ==> v.tried(gs, cases[(#[trigger] order[j]) as int]).res
                == TryResult::NotReady,
        v.polled(gs, cases, order, 0).found matches Some((i, r)) ==> exists|j: int|
            0 <= j < order.len() && (#[trigger] order[j]) == i && v.tried(
                gs,
                cases[i as int],
            ).res == r && r != TryResult::NotReady && forall|l: int|
                0 <= l < j ==> v.tried(gs, cases[(#[trigger] order[l]) as int]).res
                    == TryResult::NotReady,
{
    lemma_polled(v, gs, cases, order, 0);
}

/// The sudog with which a waiting goroutine took part in a try.
pub open spec fn partner<V>(v: ChansView<V>, gs: Seq<G>, case: SCase<V>) -> usize {
    v.chans[case.chan as int].queue(!case.send)[v.first_waiter(
        gs,
        case.chan as int,
        !case.send,
    ) as int]
}

/// Once an operation has claimed a goroutine that selects, no other operation
/// can: a `select` has one winner.
pub proof fn select_has_one_winner<V>(v: ChansView<V>, gs: Seq<G>, case: SCase<V>, t: int)
    requires
        v.sound(),
        v.names(gs.len()),
        case.chan < v.chans.len(),
        v.tried(gs, case).res is Handoff,
        v.sudogs[partner(v, gs, case) as int].is_select,
        0 <= t < v.sudogs.len(),
        v.sudogs[t].is_select,
        v.sudogs[t].g == v.sudogs[partner(v, gs, case) as int].g,
    ensures
        v.tried(gs, case).res->gp == v.sudogs[t].g->0,
        !claimable(v.tried(gs, case).v.sudogs[t], v.tried(gs, case).gs),
{
    assert(v.chans[case.chan as int].sound());
}

/// A goroutine that waits with its cases goes on doing so, with the same sudogs,
/// whatever another goroutine tries.
pub proof fn others_keep_registration<V>(
    v: ChansView<V>,
    gs: Seq<G>,
    case: SCase<V>,
    gp: usize,
    cases: Seq<SCase<V>>,
)
    requires
        v.sound(),
        case.chan < v.chans.len(),
        registered(v, gp, cases),
    ensures
        registered(v.tried(gs, case).v, gp, cases),
{
    let u = v.tried(gs, case).v;
    assert(v.chans[case.chan as int].sound());
    assert forall|i: int| 0 <= i < cases.len() implies enlisted_case(u, gp, #[trigger] cases[i]) by {
        let x = cases[i];
        let sg = x.sg->0;
        assert(enlisted_case(v, gp, x));
        assert forall|k: int| 0 <= k < u.chans.len() implies ((
        #[trigger] u.chans[k]).sendq.contains(sg) ==> k == x.chan && x.send) && (
        u.chans[k].recvq.contains(sg) ==> k == x.chan && !x.send) by {
            let a = v.chans[k];
            let b = u.chans[k];
            let n = v.first_waiter(gs, case.chan as int, !case.send) as int;
            lemma_first_claimable(a.queue(!case.send), v.sudogs, gs, 0);
            if b.sendq.contains(sg) {
                let j = b.sendq.index_of(sg);
                if b.sendq != a.sendq {
                    assert(a.sendq[j + n + 1] == sg);
                }
                assert(a.sendq.contains(sg));
            }
            if b.recvq.contains(sg) {
                let j = b.recvq.index_of(sg);
                if b.recvq != a.recvq {
                    assert(a.recvq[j + n + 1] == sg);
                }
                assert(a.recvq.contains(sg));
            }
        }
    }
}

/// A value that is sent while goroutine `gp` waits for it, with case `w`, is the
/// value that this case has when the wait ends; the goroutine is told so, and
/// its wait can end.
pub proof fn waiting_receiver_gets_the_value<V>(
    v: ChansView<V>,
    gs: Seq<G>,
    val: V,
    gp: usize,
    cases: Seq<SCase<V>>,
    w: int,
)
    requires
        v.sound(),
        v.names(gs.len()),
        registered(v, gp, cases),
        0 <= w < cases.len(),
        !cases[w].send,
        v.sudogs[cases[w].sg->0 as int].elem is Slot,
        ({
            let c = cases[w].chan as int;
            let k = v.first_waiter(gs, c, false);
            k < v.chans[c].recvq.len() && v.chans[c].recvq[k as int] == cases[w].sg->0
        }),
    ensures
        ({
            let t = v.tried_send(gs, cases[w].chan as int, Some(val));
            let sg = cases[w].sg->0;
            &&& t.res == TryResult::Handoff { gp, ok: true }
            &&& t.v.recovered(cases[w]).elem == Some(val)
            &&& t.v.sudogs[sg as int].success
            &&& t.gs[gp as int].param == Some(sg)
            &&& registered(t.v, gp, cases)
            &&& forall|c: int|
                0 <= c < t.v.chans.len() ==> !(#[trigger] t.v.chans[c]).sendq.contains(sg)
                    && !t.v.chans[c].recvq.contains(sg)
        }),
{
    let c = cases[w].chan;
    let sg = cases[w].sg->0;
    let case = SCase { chan: c, sg: None, elem: Some(val), send: true };
    assert(enlisted_case(v, gp, cases[w]));
    assert(v.chans[c as int].sound());
    let t = v.tried_send(gs, c as int, Some(val));
    assert(t == v.tried(gs, case));
    others_keep_registration(v, gs, case, gp, cases);
    assert(enlisted_case(t.v, gp, cases[w]));
    let k = v.first_waiter(gs, c as int, false) as int;
    let q = v.chans[c as int].recvq;
    assert forall|x: int| 0 <= x < t.v.chans.len() implies !(
    #[trigger] t.v.chans[x]).sendq.contains(sg) && !t.v.chans[x].recvq.contains(sg) by {
        if t.v.chans[x].recvq.contains(sg) {
            let j = t.v.chans[x].recvq.index_of(sg);
            assert(q[j + k + 1] == sg);
            assert(q[k] == sg);
        }
    }
}

/// A receiver serves the sender that has waited longest, goroutine `gp` with case
/// `w`: without a buffer it gets that sender's value; else it gets the oldest
/// value in the buffer, and the sender's goes in as the last.  The sender is told
/// that it went through, and its value is gone, so that it is received once.
pub proof fn waiting_sender_is_served<V>(
    v: ChansView<V>,
    gs: Seq<G>,
    slot: Option<V>,
    gp: usize,
    cases: Seq<SCase<V>>,
    w: int,
)
    requires
        v.sound(),
        v.names(gs.len()),
        registered(v, gp, cases),
        0 <= w < cases.len(),
        cases[w].send,
        ({
            let c = cases[w].chan as int;
            let k = v.first_waiter(gs, c, true);
            k < v.chans[c].sendq.len() && v.chans[c].sendq[k as int] == cases[w].sg->0
        }),
    ensures
        ({
            let t = v.tried_recv(gs, cases[w].chan as int, slot);
            let sg = cases[w].sg->0;
            let a = v.chans[cases[w].chan as int];
            let b = t.v.chans[cases[w].chan as int];
            &&& t.res == TryResult::Handoff { gp, ok: true }
            &&& v.recovered(cases[w]).elem is Some
            &&& a.cap == 0 ==> t.elem == v.recovered(cases[w]).elem && b.buf.len() == 0
            &&& a.cap > 0 ==> t.elem == Some(a.buf[0]) && b.buf == a.buf.skip(1).push(
                v.recovered(cases[w]).elem->0,
            )
            &&& t.v.recovered(cases[w]).elem is None
            &&& t.v.sudogs[sg as int].success
            &&& t.gs[gp as int].param == Some(sg)
            &&& registered(t.v, gp, cases)
            &&& forall|c: int|
                0 <= c < t.v.chans.len() ==> !(#[trigger] t.v.chans[c]).sendq.contains(sg)
                    && !t.v.chans[c].recvq.contains(sg)
        }),
{
    let c = cases[w].chan;
    let sg = cases[w].sg->0;
    let case = SCase { chan: c, sg: None, elem: slot, send: false };
    assert(enlisted_case(v, gp, cases[w]));
    assert(v.chans[c as int].sound());
    let t = v.tried_recv(gs, c as int, slot);
    assert(t == v.tried(gs, case));
    others_keep_registration(v, gs, case, gp, cases);
    assert(enlisted_case(t.v, gp, cases[w]));
    let k = v.first_waiter(gs, c as int, true) as int;
    let q = v.chans[c as int].sendq;
    assert(q[k] == sg);
    assert(waits(v.sudogs[sg as int], c, true));
    let val = v.sudogs[sg as int].elem->0->0;
    let buf = v.chans[c as int].buf;
    if v.chans[c as int].cap > 0 {
        assert(buf.push(val).skip(1) =~= buf.skip(1).push(val));
    }
    assert forall|x: int| 0 <= x < t.v.chans.len() implies !(
    #[trigger] t.v.chans[x]).sendq.contains(sg) && !t.v.chans[x].recvq.contains(sg) by {
        if t.v.chans[x].sendq.contains(sg) {
            let j = t.v.chans[x].sendq.index_of(sg);
            assert(q[j + k + 1] == sg);
            assert(q[k] == sg);
        }
    }
}

/// A closed channel refuses to send; receiving from it gives what is still
/// buffered, and then says that nothing will come.
pub proof fn closed_channel_drains<V>(v: ChansView<V>, gs: Seq<G>, c: usize, elem: Option<V>)
    requires
        v.sound(),
        c < v.chans.len(),
        v.chans[c as int].closed,
    ensures
        v.tried_send(gs, c as int, elem).res == TryResult::ClosedSend,
        v.tried_send(gs, c as int, elem).v == v,
        v.tried_send(gs, c as int, elem).elem == elem,
        v.chans[c as int].buf.len() > 0 ==> v.tried_recv(gs, c as int, elem).res
            == (TryResult::Done { ok: true }) && v.tried_recv(gs, c as int, elem).elem == Some(
            v.chans[c as int].buf[0],
        ),
        v.chans[c as int].buf.len() == 0 ==> v.tried_recv(gs, c as int, elem).res
            == (TryResult::Done { ok: false }) && v.tried_recv(gs, c as int, elem).elem == elem,
{
    assert(v.chans[c as int].sound());
}

/// The goroutine at position `j` of a queue can still be claimed.
pub open spec fn free_at<V>(q: Seq<usize>, sudogs: Seq<Sudog<V>>, gs: Seq<G>, j: int) -> bool {
    let s = sudogs[q[j] as int];
    s.is_select ==> s.g is Some && gs[s.g->0 as int].selectdone == 0
}

/// Somebody on a queue can still be claimed.
pub open spec fn any_free<V>(q: Seq<usize>, sudogs: Seq<Sudog<V>>, gs: Seq<G>) -> bool {
    exists|j: int| 0 <= j < q.len() && #[trigger] free_at(q, sudogs, gs, j)
}

/// The position `k` is that of who has waited longest among those on a queue that
/// can still be claimed.
pub open spec fn longest_waiting<V>(
    q: Seq<usize>,
    sudogs: Seq<Sudog<V>>,
    gs: Seq<G>,
    k: int,
) -> bool {
    &&& 0 <= k < q.len()
    &&& free_at(q, sudogs, gs, k)
    &&& forall|j: int| 0 <= j < k ==> !#[trigger] free_at(q, sudogs, gs, j)
}

proof fn lemma_longest_waiting<V>(v: ChansView<V>, gs: Seq<G>, c: int, sends: bool)
    ensures
        ({
            let q = v.chans[c].queue(sends);
            let k = v.first_waiter(gs, c, sends) as int;
            &&& k < q.len() <==> any_free(q, v.sudogs, gs)
            &&& any_free(q, v.sudogs, gs) ==> longest_waiting(q, v.sudogs, gs, k)
        }),
{
    let q = v.chans[c].queue(sends);
    lemma_first_claimable(q, v.sudogs, gs, 0);
    let k = v.first_waiter(gs, c, sends) as int;
    assert forall|j: int| 0 <= j < k implies !#[trigger] free_at(q, v.sudogs, gs, j) by {
        assert(!claimable(v.sudogs[q[j] as int], gs));
    }
    if k < q.len() {
        assert(free_at(q, v.sudogs, gs, k));
    }
}

/// A send is refused exactly on a closed channel.  On an open one it goes through
/// exactly when a receiver waits, which is then the one that has waited longest,
/// or else there is room in the buffer, where it then is the last; the value is
/// then gone.  Otherwise, or when it was refused, the sender still has it.
pub proof fn a_send_goes_through_when_it_can<V>(v: ChansView<V>, gs: Seq<G>, c: usize, val: V, k: int)
    requires
        v.sound(),
        v.names(gs.len()),
        c < v.chans.len(),
    ensures
        ({
            let t = v.tried_send(gs, c as int, Some(val));
            let a = v.chans[c as int];
            let b = t.v.chans[c as int];
            let met = any_free(a.recvq, v.sudogs, gs);
            &&& t.res is ClosedSend <==> a.closed
            &&& t.res is Handoff <==> !a.closed && met
            &&& t.res is Done <==> !a.closed && !met && a.buf.len() < a.cap
            &&& t.res is NotReady <==> !a.closed && !met && a.buf.len() == a.cap
            &&& t.res is Done ==> t.res == (TryResult::Done { ok: true }) && b.buf == a.buf.push(
                val,
            ) && t.elem is None
            &&& t.res is Handoff && longest_waiting(a.recvq, v.sudogs, gs, k) ==> ({
                let sg = a.recvq[k];
                let gp = v.sudogs[sg as int].g->0;
                &&& t.res == TryResult::Handoff { gp, ok: true }
                &&& t.elem is None && b.buf == a.buf && b.recvq == a.recvq.skip(k + 1)
                &&& t.gs[gp as int].param == Some(sg) && t.v.sudogs[sg as int].success
                &&& v.sudogs[sg as int].is_select ==> t.gs[gp as int].selectdone == 1
                &&& v.sudogs[sg as int].elem is Slot ==> t.v.sudogs[sg as int].elem == Elem::Slot(
                    Some(val),
                )
            })
            &&& t.res is NotReady || t.res is ClosedSend ==> t.elem == Some(val) && b.buf == a.buf
                && t.gs == gs && t.v.sudogs == v.sudogs
            &&& b.cap == a.cap && b.closed == a.closed && b.sendq == a.sendq
            &&& !a.closed && !met ==> b.recvq.len() == 0
            &&& a.closed ==> b.recvq == a.recvq
        }),
{
    let t = v.tried_send(gs, c as int, Some(val));
    let a = v.chans[c as int];
    assert(a.sound());
    lemma_longest_waiting(v, gs, c as int, false);
    let f = v.first_waiter(gs, c as int, false) as int;
    if t.res is Handoff && longest_waiting(a.recvq, v.sudogs, gs, k) {
        if k < f {
            assert(!free_at(a.recvq, v.sudogs, gs, k));
        } else if f < k {
            assert(!free_at(a.recvq, v.sudogs, gs, f));
        }
        let sg = a.recvq[k];
        assert(waits(v.sudogs[sg as int], c, false));
        assert(opt_below(v.sudogs[sg as int].g, gs.len()));
    }
}

/// A receive goes through exactly when a sender waits, or something is buffered,
/// or the channel is closed.  It gets what was sent first: the oldest value in the
/// buffer, or, if there is none, that of the sender that has waited longest, whose
/// value else becomes the last in the buffer.  Only on a closed channel with
/// nothing left does it get nothing.
pub proof fn a_receive_goes_through_when_it_can<V>(
    v: ChansView<V>,
    gs: Seq<G>,
    c: usize,
    slot: Option<V>,
    k: int,
)
    requires
        v.sound(),
        v.names(gs.len()),
        c < v.chans.len(),
    ensures
        ({
            let t = v.tried_recv(gs, c as int, slot);
            let a = v.chans[c as int];
            let b = t.v.chans[c as int];
            let met = any_free(a.sendq, v.sudogs, gs);
            &&& t.res is Handoff <==> met
            &&& t.res == (TryResult::Done { ok: true }) <==> !met && a.buf.len() > 0
            &&& t.res == (TryResult::Done { ok: false }) <==> !met && a.buf.len() == 0 && a.closed
            &&& t.res is NotReady <==> !met && a.buf.len() == 0 && !a.closed
            &&& t.res is Handoff && longest_waiting(a.sendq, v.sudogs, gs, k) ==> ({
                let sg = a.sendq[k];
                let gp = v.sudogs[sg as int].g->0;
                let val = v.sudogs[sg as int].elem->0->0;
                &&& t.res == TryResult::Handoff { gp, ok: true }
                &&& a.buf.len() == 0 ==> t.elem == Some(val) && b.buf.len() == 0
                &&& a.buf.len() > 0 ==> t.elem == Some(a.buf[0]) && b.buf == a.buf.skip(1).push(val)
                &&& b.sendq == a.sendq.skip(k + 1)
                &&& t.gs[gp as int].param == Some(sg) && t.v.sudogs[sg as int].success
                &&& v.sudogs[sg as int].is_select ==> t.gs[gp as int].selectdone == 1
                &&& t.v.sudogs[sg as int].elem is Null
            })
            &&& !met && a.buf.len() > 0 ==> t.elem == Some(a.buf[0]) && b.buf == a.buf.skip(1)
            &&& !met && a.buf.len() == 0 ==> t.elem == slot && b.buf == a.buf
            &&& !met ==> t.gs == gs && t.v.sudogs == v.sudogs
            &&& b.cap == a.cap && b.closed == a.closed && b.recvq == a.recvq
            &&& !met ==> b.sendq.len() == 0
        }),
{
    let t = v.tried_recv(gs, c as int, slot);
    let a = v.chans[c as int];
    assert(a.sound());
    lemma_longest_waiting(v, gs, c as int, true);
    let f = v.first_waiter(gs, c as int, true) as int;
    if t.res is Handoff && longest_waiting(a.sendq, v.sudogs, gs, k) {
        if k < f {
            assert(!free_at(a.sendq, v.sudogs, gs, k));
        } else if f < k {
            assert(!free_at(a.sendq, v.sudogs, gs, f));
        }
        let sg = a.sendq[k];
        assert(waits(v.sudogs[sg as int], c, true));
        assert(opt_below(v.sudogs[sg as int].g, gs.len()));
        let val = v.sudogs[sg as int].elem->0->0;
        if a.buf.len() > 0 {
            assert(a.buf.push(val).skip(1) =~= a.buf.skip(1).push(val));
        }
    }
}

/// A try on one channel leaves every other channel alone, and every goroutine and
/// every sudog but the one that was met.
pub proof fn a_try_touches_only_its_channel<V>(
    v: ChansView<V>,
    gs: Seq<G>,
    case: SCase<V>,
    d: int,
    t: usize,
    g: usize,
)
    requires
        v.sound(),
        v.names(gs.len()),
        case.chan < v.chans.len(),
        0 <= d < v.chans.len(),
        d != case.chan,
        t < v.sudogs.len(),
        g < gs.len(),
    ensures
        ({
            let r = v.tried(gs, case);
            &&& r.v.chans.len() == v.chans.len() && r.v.chans[d] == v.chans[d]
            &&& r.v.pool == v.pool && r.v.sudogs.len() == v.sudogs.len() && r.gs.len() == gs.len()
            &&& !(r.res matches TryResult::Handoff { gp, .. } && gp == g) ==> r.gs[g as int]
                == gs[g as int]
            &&& r.gs[g as int] == (G {
                param: r.gs[g as int].param,
                selectdone: r.gs[g as int].selectdone,
                ..gs[g as int]
            })
            &&& !(r.res matches TryResult::Handoff { gp, .. } && v.sudogs[t as int].g == Some(gp))
                ==> r.v.sudogs[t as int] == v.sudogs[t as int]
        }),
{
    assert(v.chans[case.chan as int].sound());
    lemma_longest_waiting(v, gs, case.chan as int, !case.send);
    let q = v.chans[case.chan as int].queue(!case.send);
    let k = v.first_waiter(gs, case.chan as int, !case.send) as int;
    if k < q.len() {
        assert(waits(v.sudogs[q[k] as int], case.chan, !case.send));
        assert(opt_below(v.sudogs[q[k] as int].g, gs.len()));
    }
}

/// Who begins to wait on a channel is last on its side, with its value, unclaimed
/// and not yet served; everybody else keeps their place.
pub proof fn who_begins_to_wait_is_last<V>(
    v: ChansView<V>,
    p: Option<usize>,
    gp: usize,
    x: SCase<V>,
    d: int,
)
    requires
        x.chan < v.chans.len(),
        v.pool.acquired(p) <= v.sudogs.len(),
        0 <= d < v.chans.len(),
    ensures
        ({
            let w = v.after_enqueue(x.chan, x.send, p, gp, x.elem);
            let sg = v.pool.acquired(p);
            let a = v.chans[x.chan as int];
            let b = w.chans[x.chan as int];
            let s = w.sudogs[sg as int];
            &&& x.send ==> b.sendq == a.sendq.push(sg) && b.recvq == a.recvq
            &&& !x.send ==> b.recvq == a.recvq.push(sg) && b.sendq == a.sendq
            &&& b.buf == a.buf && b.cap == a.cap && b.closed == a.closed
            &&& d != x.chan ==> w.chans[d] == v.chans[d]
            &&& s.g == Some(gp) && s.c == Some(x.chan) && s.elem == Elem::Slot(x.elem)
            &&& s.is_select && !s.success
            &&& w.pool == v.pool.after_acquire(p)
            &&& forall|t: int|
                0 <= t < v.sudogs.len() && t != sg ==> #[trigger] w.sudogs[t] == v.sudogs[t]
        }),
{
}

/// What a `select` comes to: if none of its cases is ready, it takes the default,
/// or else parks, with nothing claimed; if one is, it is that one, and the
/// goroutine that it met, if it was parked, is runnable, or is named to be tried
/// again if it is only about to park.
pub proof fn a_select_takes_what_is_ready<V>(
    q: Polled<V>,
    rt: RtView,
    m: Option<usize>,
    gp: usize,
    has_default: bool,
)
    requires
        rt.names(),
        rt.with_gs(q.gs).names(),
        opt_below(m, rt.ms.len()),
        gp < q.gs.len(),
        q.found matches Some((_, TryResult::Handoff { gp: other, .. })) ==> other < q.gs.len(),
        q.found matches Some((_, r)) ==> r != TryResult::NotReady,
    ensures
        ({
            let (step, now, e) = selected(q, rt, m, Some(gp), has_default);
            &&& step == SelectStep::Park <==> q.found is None && !has_default
            &&& q.found is None && has_default ==> step == SelectStep::Chosen {
                index: usize::MAX,
                ok: false,
                retry: None,
            } && now.gs == q.gs
            &&& q.found matches Some((i, TryResult::Done { ok })) ==> step == SelectStep::Chosen {
                index: i,
                ok,
                retry: None,
            } && now.gs == q.gs
            &&& q.found matches Some((i, TryResult::ClosedSend)) ==> step == SelectStep::ClosedSend
            &&& q.found matches Some((i, TryResult::Handoff { gp: other, ok })) ==> ({
                let g = q.gs[other as int];
                &&& step matches SelectStep::Chosen { index, ok: o, retry } && index == i && o == ok
                    && (retry is Some ==> retry->0 == other) && (retry is None
                    <==> g.atomicstatus == 4 || g.status() == 1 || g.status() == 6)
                &&& g.atomicstatus == 4 ==> now.gs[other as int] == (G { atomicstatus: 1, ..g })
                &&& g.atomicstatus != 4 ==> now.gs[other as int] == g
            })
            &&& step == SelectStep::Park ==> now.gs[gp as int].selectdone == 0
                && now.gs[gp as int].param is None && now.gs[gp as int].waitreason
                == WaitReason::Select
            &&& step != SelectStep::Park ==> e.v == q.v && e.cases == q.cases
            &&& step == SelectStep::Park ==> e == q.v.enlisted(
                q.cases,
                if m is Some {
                    rt.ms[m->0 as int].p
                } else {
                    None
                },
                gp,
                q.cases.len(),
            )
        }),
{
    if let Some((_, TryResult::Handoff { gp: other, ok })) = q.found {
        let now = rt.with_gs(q.gs);
        ready_touches_only_its_goroutine(now, m, other);
        crate::runtime::park::lemma_parked_status(q.gs[other as int]);
    }
}

/// Taking some out of a row leaves the others in their order.
proof fn lemma_filter_order(q: Seq<usize>, f: spec_fn(usize) -> bool, i: int, j: int)
    requires
        0 <= i < j < q.len(),
        f(q[i]),
        f(q[j]),
    ensures
        exists|a: int, b: int|
            0 <= a < b < q.filter(f).len() && #[trigger] q.filter(f)[a] == q[i]
                && #[trigger] q.filter(f)[b] == q[j],
    decreases q.len(),
{
    reveal(Seq::filter);
    let r = q.drop_last();
    if j < q.len() - 1 {
        lemma_filter_order(r, f, i, j);
        let (a, b) = choose|a: int, b: int|
            0 <= a < b < r.filter(f).len() && #[trigger] r.filter(f)[a] == r[i]
                && #[trigger] r.filter(f)[b] == r[j];
        assert(q.filter(f)[a] == q[i] && q.filter(f)[b] == q[j]);
    } else {
        lemma_filter_keeps(r, f, i);
        let a = choose|a: int| 0 <= a < r.filter(f).len() && #[trigger] r.filter(f)[a] == r[i];
        assert(q.filter(f)[a] == q[i]);
        assert(q.filter(f)[q.filter(f).len() - 1] == q[j]);
    }
}

proof fn lemma_filter_keeps(q: Seq<usize>, f: spec_fn(usize) -> bool, i: int)
    requires
        0 <= i < q.len(),
        f(q[i]),
    ensures
        exists|a: int| 0 <= a < q.filter(f).len() && #[trigger] q.filter(f)[a] == q[i],
    decreases q.len(),
{
    reveal(Seq::filter);
    let r = q.drop_last();
    if i < q.len() - 1 {
        lemma_filter_keeps(r, f, i);
        let a = choose|a: int| 0 <= a < r.filter(f).len() && #[trigger] r.filter(f)[a] == r[i];
        assert(q.filter(f)[a] == q[i]);
    } else {
        assert(q.filter(f)[q.filter(f).len() - 1] == q[i]);
    }
}

/// When the wait of one goroutine ends, everybody else on the channels keeps
/// waiting, in the same order, and nothing that is buffered changes.
pub proof fn others_keep_their_turn<V>(
    v: ChansView<V>,
    cases: Seq<SCase<V>>,
    w: int,
    c: int,
    sends: bool,
    i: int,
    j: int,
)
    requires
        0 <= c < v.chans.len(),
        0 <= i < j < v.chans[c].queue(sends).len(),
        forall|x: int|
            0 <= x < cases.len() ==> (#[trigger] cases[x]).sg != Some(v.chans[c].queue(sends)[i])
                && cases[x].sg != Some(v.chans[c].queue(sends)[j]),
    ensures
        ({
            let u = v.unqueued(cases, w, cases.len() as int);
            let q = v.chans[c].queue(sends);
            let r = u.chans[c].queue(sends);
            &&& exists|a: int, b: int|
                0 <= a < b < r.len() && #[trigger] r[a] == q[i] && #[trigger] r[b] == q[j]
            &&& u.chans[c].buf == v.chans[c].buf && u.chans[c].cap == v.chans[c].cap
                && u.chans[c].closed == v.chans[c].closed
            &&& u.sudogs == v.sudogs && u.chans.len() == v.chans.len()
        }),
{
    let q = v.chans[c].queue(sends);
    let f = |t: usize| !is_loser(cases, w, cases.len() as int, t);
    assert(f(q[i]) && f(q[j]));
    lemma_filter_order(q, f, i, j);
    let u = v.unqueued(cases, w, cases.len() as int);
    let r = u.chans[c].queue(sends);
    assert(r == q.filter(f));
}

proof fn lemma_shuffled_keeps_tail(s: Seq<usize>, seed: u64, i: nat, k: int)
    requires
        i < s.len(),
        i < k < s.len(),
    ensures
        shuffled(s, seed, i).len() == s.len(),
        shuffled(s, seed, i)[k] == s[k],
    decreases i,
{
    if i > 0 {
        let t = lehmer_next(seed);
        let j = lehmer_value(t, i + 1);
        vstd::arithmetic::div_mod::lemma_mod_bound((t >> 33) as int, (i + 1) as int);
        lemma_shuffled_keeps_tail(swapped(s, i as int, j), t, (i - 1) as nat, k);
    }
}

/// Each number of the generator comes out of its state as bits 33 and up, below
/// the bound; and each state out of the one before by one multiplication and one
/// addition, without regard to what does not fit.
pub proof fn the_generator_moves_on(s: u64, n: nat)
    requires
        n > 0,
    ensures
        lehmer_next(s) == (s * 6_364_136_223_846_793_005 + 1) % 0x1_0000_0000_0000_0000,
        0 <= lehmer_value(s, n) < n,
        lehmer_value(s, n) == (s as int / 0x2_0000_0000) % n as int,
{
    vstd::arithmetic::div_mod::lemma_mod_bound((s >> 33) as int, n as int);
    assert(s >> 33 == s / 0x2_0000_0000) by (bit_vector);
    let a = s as int * 6_364_136_223_846_793_005;
    let m = 0x1_0000_0000_0000_0000int;
    vstd::arithmetic::div_mod::lemma_add_mod_noop(a, 1, m);
    vstd::arithmetic::div_mod::lemma_mod_bound(a, m);
}

/// At each step of a shuffle, the entry that the generator's next number names
/// comes to the end, from where it moves no more; the one that was there takes its
/// place, and the others are shuffled on.
pub proof fn a_shuffle_draws_one_at_a_time(s: Seq<usize>, seed: u64, i: nat)
    requires
        0 < i < s.len(),
    ensures
        ({
            let next = lehmer_next(seed);
            let j = (next as int / 0x2_0000_0000) % (i + 1) as int;
            let r = shuffled(s, seed, i);
            &&& 0 <= j <= i
            &&& r.len() == s.len()
            &&& r[i as int] == s[j]
            &&& forall|k: int| i < k < s.len() ==> #[trigger] r[k] == s[k]
            &&& r == shuffled(s.update(j, s[i as int]).update(i as int, s[j]), next, (i - 1) as nat)
        }),
{
    let next = lehmer_next(seed);
    the_generator_moves_on(next, i + 1);
    let j = lehmer_value(next, i + 1);
    let w = swapped(s, i as int, j);
    assert(w =~= s.update(j, s[i as int]).update(i as int, s[j]));
    lemma_shuffled_keeps_tail(w, next, (i - 1) as nat, i as int);
    assert forall|k: int| i < k < s.len() implies #[trigger] shuffled(s, seed, i)[k] == s[k] by {
        lemma_shuffled_keeps_tail(s, seed, i, k);
    }
}

/// Which case is looked at last depends on the goroutine's number: it is drawn with
/// the first number that the goroutine's generator gives.
pub proof fn the_last_case_is_drawn(n: nat, goid: Option<u64>)
    requires
        2 <= n <= usize::MAX,
    ensures
        ({
            let seed = match goid {
                Some(id) => id | 1,
                None => 1,
            };
            poll_order_of(n, goid)[n - 1] == (lehmer_next(seed) as int / 0x2_0000_0000) % n as int
        }),
{
    let u = upto(n);
    a_shuffle_draws_one_at_a_time(u, seed_of(goid), (n - 1) as nat);
}

/// When a wait ends, the sudogs of all its cases are cleared, and no other sudog,
/// and no channel, is touched.
pub proof fn a_wait_leaves_nothing_behind<V>(
    v: ChansView<V>,
    cases: Seq<SCase<V>>,
    p: Option<usize>,
    n: nat,
    t: usize,
)
    requires
        n <= cases.len(),
        t < v.sudogs.len(),
        forall|i: int|
            0 <= i < n ==> (#[trigger] cases[i]).sg is Some && cases[i].sg->0 < v.sudogs.len(),
    ensures
        ({
            let w = v.given_back(cases, p, n);
            &&& w.chans == v.chans && w.sudogs.len() == v.sudogs.len()
            &&& n == 0 ==> w.pool == v.pool
            &&& n > 0 ==> w.pool == v.given_back(cases, p, (n - 1) as nat).pool.after_release(
                p,
                cases[n - 1].sg->0,
            )
            &&& (exists|i: int| 0 <= i < n && (#[trigger] cases[i]).sg == Some(t)) ==> w.sudogs[t as int]
                == (Sudog { g: None, c: None, elem: Elem::Null, ..v.sudogs[t as int] })
            &&& !(exists|i: int| 0 <= i < n && (#[trigger] cases[i]).sg == Some(t))
                ==> w.sudogs[t as int] == v.sudogs[t as int]
        }),
    decreases n,
{
    if n > 0 {
        a_wait_leaves_nothing_behind(v, cases, p, (n - 1) as nat, t);
        let a = v.given_back(cases, p, (n - 1) as nat);
        let sg = cases[n - 1].sg->0;
        if exists|i: int| 0 <= i < n && (#[trigger] cases[i]).sg == Some(t) {
            let i = choose|i: int| 0 <= i < n && (#[trigger] cases[i]).sg == Some(t);
            if i < n - 1 {
                assert(exists|i: int| 0 <= i < n - 1 && (#[trigger] cases[i]).sg == Some(t));
            } else {
                assert(sg == t);
            }
        } else {
            assert(cases[n - 1].sg != Some(t));
            assert(!(exists|i: int| 0 <= i < n - 1 && (#[trigger] cases[i]).sg == Some(t)));
        }
    }
}

/// What a case gets back when its wait ends is what lies with its sudog: a value
/// that came, or one that nobody took; and its sudog is its own no more.
pub proof fn a_case_gets_back_what_lies_there<V>(v: ChansView<V>, case: SCase<V>, val: V)
    requires
        case.sg is Some,
    ensures
        ({
            let s = v.sudogs[case.sg->0 as int];
            let r = v.recovered(case);
            &&& s.elem == Elem::Slot(Some(val)) ==> r.elem == Some(val)
            &&& s.elem == Elem::<V>::Slot(None) || s.elem is Null ==> r.elem is None
            &&& r.sg is None && r.chan == case.chan && r.send == case.send
        }),
{
}

/// After a select found nothing, the goroutine waits with every case: each has a
/// sudog of its own, and its value lies there.
pub proof fn every_case_is_enlisted<V>(
    v: ChansView<V>,
    cases: Seq<SCase<V>>,
    p: Option<usize>,
    gp: usize,
    n: nat,
    i: int,
)
    requires
        n <= cases.len(),
        0 <= i < cases.len(),
        forall|x: int| 0 <= x < cases.len() ==> (#[trigger] cases[x]).chan < v.chans.len(),
    ensures
        ({
            let e = v.enlisted(cases, p, gp, n);
            &&& e.cases.len() == cases.len()
            &&& i < n ==> e.cases[i].sg is Some && e.cases[i].elem is None
            &&& i >= n ==> e.cases[i] == cases[i]
            &&& e.cases[i].chan == cases[i].chan && e.cases[i].send == cases[i].send
            &&& e.v.chans.len() == v.chans.len()
        }),
    decreases n,
{
    if n > 0 {
        every_case_is_enlisted(v, cases, p, gp, (n - 1) as nat, i);
        every_case_is_enlisted(v, cases, p, gp, (n - 1) as nat, n - 1);
    }
}

/// A select that comes to a case that is ready takes it, whatever lies behind it,
/// and leaves the other cases as they are; else it goes on to the next.
pub proof fn an_earlier_case_is_preferred<V>(
    v: ChansView<V>,
    gs: Seq<G>,
    cases: Seq<SCase<V>>,
    order: Seq<usize>,
    k: nat,
)
    requires
        v.sound(),
        v.names(gs.len()),
        k < order.len(),
        forall|x: int| 0 <= x < order.len() ==> (#[trigger] order[x]) < cases.len(),
        forall|x: int| 0 <= x < cases.len() ==> (#[trigger] cases[x]).chan < v.chans.len(),
    ensures
        ({
            let q = v.polled(gs, cases, order, k);
            let i = order[k as int];
            let t = v.tried(gs, cases[i as int]);
            &&& t.res != TryResult::NotReady ==> q.found == Some((i, t.res)) && q.v == t.v && q.gs
                == t.gs && q.cases.len() == cases.len() && q.cases[i as int].elem == t.elem
            &&& t.res == TryResult::NotReady ==> q == t.v.polled(gs, cases, order, k + 1)
            &&& forall|x: int|
                0 <= x < cases.len() && x != i && t.res != TryResult::NotReady
                    ==> #[trigger] q.cases[x] == cases[x]
        }),
{
    assert(cases[order[k as int] as int].chan < v.chans.len());
}

/// Two goroutines that lock the same channels lock them in the same order, whatever
/// their cases are, so that neither waits for a lock while it holds one that the
/// other waits for.
pub proof fn locks_are_taken_in_one_order<V, W>(
    xs: Seq<SCase<V>>,
    ys: Seq<SCase<W>>,
    a: Seq<usize>,
    b: Seq<usize>,
    i: int,
    j: int,
    k: int,
    l: int,
)
    requires
        is_lock_order(chans_of(xs), a, xs.len() as int),
        is_lock_order(chans_of(ys), b, ys.len() as int),
        0 <= i < j < a.len(),
        0 <= k < b.len(),
        0 <= l < b.len(),
        xs[a[i] as int].chan == ys[b[k] as int].chan,
        xs[a[j] as int].chan == ys[b[l] as int].chan,
    ensures
        k < l,
{
    let x = chans_of(xs);
    let y = chans_of(ys);
    assert(x[a[i] as int] < x[a[j] as int]);
    assert(a[i] < xs.len() && a[j] < xs.len() && b[k] < ys.len() && b[l] < ys.len());
    if l < k {
        assert(y[b[l] as int] < y[b[k] as int]);
    }
}

/// The channel of every case is locked, and none is locked twice.
pub proof fn every_channel_is_locked_once<V>(cases: Seq<SCase<V>>, order: Seq<usize>, i: int)
    requires
        is_lock_order(chans_of(cases), order, cases.len() as int),
        0 <= i < cases.len(),
    ensures
        exists|a: int|
            0 <= a < order.len() && order[a] < cases.len() && cases[(
            #[trigger] order[a]) as int].chan == cases[i].chan,
        forall|a: int, b: int|
            0 <= a < order.len() && 0 <= b < order.len() && cases[(#[trigger] order[a]) as int].chan
                == cases[(#[trigger] order[b]) as int].chan ==> a == b,
        forall|a: int| 0 <= a < order.len() ==> (#[trigger] order[a]) < cases.len(),
{
    let chans = chans_of(cases);
    assert(covered(chans, order, i));
    let a = choose|a: int| #[trigger] locks(chans, order, a, chans[i]);
    assert(order[a] < cases.len());
    assert(cases[order[a] as int].chan == cases[i].chan);
    assert forall|a: int, b: int|
        0 <= a < order.len() && 0 <= b < order.len() && cases[(#[trigger] order[a]) as int].chan
            == cases[(#[trigger] order[b]) as int].chan implies a == b by {
        assert(chans[order[a] as int] == chans[order[b] as int]);
        if a < b {
            assert(chans[order[a] as int] < chans[order[b] as int]);
        } else if b < a {
            assert(chans[order[b] as int] < chans[order[a] as int]);
        }
    }
}

} // verus!
