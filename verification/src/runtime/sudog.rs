//! Waiting goroutines on channels: sudogs, the queues that hold them, and the
//! pool that they come from.

use vstd::prelude::*;

use super::g::G;

verus! {

/// Sudogs that one processor keeps for itself.
pub const LOCAL_CAP: usize = 128;

/// Sudogs that move between a processor and the central list at once.
pub const BATCH: usize = 64;

/// Sudogs that the central list keeps.
pub const CENTRAL_CAP: usize = 4096;

/// The place through which a waiting goroutine hands over or gets its value.
pub enum Elem<V> {
    /// There is none.
    Null,
    /// There is one; it holds a value or waits for one.
    Slot(Option<V>),
}

/// A goroutine that waits on a channel.
pub struct Sudog<V> {
    /// The goroutine.
    pub g: Option<usize>,
    /// The sudog behind it on its queue.
    pub next: Option<usize>,
    /// The queue it is on.
    pub q: Option<usize>,
    /// The sudog before it on its queue.
    pub prev: Option<usize>,
    /// Its value.
    pub elem: Elem<V>,
    /// It belongs to a `select` and competes with others for its goroutine.
    pub is_select: bool,
    /// The operation that woke it went through; false for a closed channel.
    pub success: bool,
    /// The value lies in an allocation that the receiver frees.
    pub boxed_elem: bool,
    /// The channel.
    pub c: Option<usize>,
}

impl<V> Sudog<V> {
    /// The sudog with nothing in it.
    pub open spec fn empty() -> Sudog<V> {
        Sudog {
            g: None,
            next: None,
            q: None,
            prev: None,
            elem: Elem::Null,
            is_select: false,
            success: false,
            boxed_elem: false,
            c: None,
        }
    }

    /// Makes a sudog with nothing in it.
    pub fn zeroed() -> (s: Sudog<V>)
        ensures
            s == Sudog::<V>::empty(),
    {
        Sudog {
            g: None,
            next: None,
            q: None,
            prev: None,
            elem: Elem::Null,
            is_select: false,
            success: false,
            boxed_elem: false,
            c: None,
        }
    }

    /// The sudog as it is off every queue.
    pub open spec fn unlinked(self) -> Sudog<V> {
        Sudog { next: None, prev: None, q: None, ..self }
    }
}

/// A queue of waiting goroutines: first in, first out, with removal anywhere.
///
/// The queue is threaded through the sudogs themselves.  Each names the queue
/// it is on, so that a sudog is removed without a search.
pub struct WaitQ {
    /// Identity of the queue.
    pub id: usize,
    /// The sudog that has waited longest.
    pub first: Option<usize>,
    /// The sudog that came last.
    pub last: Option<usize>,
    /// The sudogs on the queue, in their order.
    pub order: Ghost<Seq<usize>>,
}

impl View for WaitQ {
    type V = Seq<usize>;

    open spec fn view(&self) -> Seq<usize> {
        self.order@
    }
}

/// The neighbour of position `i` that lies `d` further on.
pub open spec fn neighbour(order: Seq<usize>, i: int, d: int) -> Option<usize> {
    if 0 <= i + d < order.len() {
        Some(order[i + d])
    } else {
        None
    }
}

/// Two sudogs that differ in their links at most.
pub open spec fn same_payload<V>(a: Sudog<V>, b: Sudog<V>) -> bool {
    a.unlinked() == b.unlinked()
}

/// A goroutine can be taken from its queue: it is no `select`, or its `select`
/// is not yet claimed.
pub open spec fn claimable<V>(s: Sudog<V>, gs: Seq<G>) -> bool {
    s.is_select ==> s.g is Some && gs[s.g->0 as int].selectdone == 0
}

/// The position, from `i` on, of the first sudog that can be taken; the length
/// where none can.
pub open spec fn first_claimable<V>(
    order: Seq<usize>,
    slots: Seq<Sudog<V>>,
    gs: Seq<G>,
    i: nat,
) -> nat
    decreases order.len() - i,
{
    if i >= order.len() {
        order.len()
    } else if claimable(slots[order[i as int] as int], gs) {
        i
    } else {
        first_claimable(order, slots, gs, i + 1)
    }
}

/// The goroutines after the one behind `s` was claimed.
pub open spec fn claimed<V>(s: Sudog<V>, gs: Seq<G>) -> Seq<G> {
    if s.is_select {
        gs.update(s.g->0 as int, G { selectdone: 1, ..gs[s.g->0 as int] })
    } else {
        gs
    }
}

impl WaitQ {
    /// The links agree with the order, and exactly the members name the queue.
    pub open spec fn wf<V>(self, slots: Seq<Sudog<V>>) -> bool {
        &&& self@.no_duplicates()
        &&& self.first == neighbour(self@, 0, 0)
        &&& self.last == neighbour(self@, self@.len() as int, -1)
        &&& forall|i: int|
            0 <= i < self@.len() ==> (#[trigger] self@[i]) < slots.len() && slots[self@[i] as int].q
                == Some(self.id)
        &&& forall|i: int|
            0 <= i < self@.len() ==> (#[trigger] slots[self@[i] as int].prev) == neighbour(
                self@,
                i,
                -1,
            )
        &&& forall|i: int|
            0 <= i < self@.len() ==> (#[trigger] slots[self@[i] as int].next) == neighbour(
                self@,
                i,
                1,
            )
        &&& forall|s: usize|
            s < slots.len() && slots[s as int].q == Some(self.id) ==> #[trigger] self@.contains(s)
    }

    /// Where the links of a queue's members stand still, and no sudog joins or
    /// leaves it, the queue stays intact.
    pub proof fn lemma_frame<V>(self, a: Seq<Sudog<V>>, b: Seq<Sudog<V>>)
        requires
            self.wf(a),
            a.len() <= b.len(),
            forall|s: usize|
                s < a.len() && (#[trigger] a[s as int]).q == Some(self.id) ==> b[s as int].q
                    == a[s as int].q && b[s as int].prev == a[s as int].prev && b[s as int].next
                    == a[s as int].next,
            forall|s: usize|
                s < b.len() && (#[trigger] b[s as int]).q == Some(self.id) ==> s < a.len()
                    && a[s as int].q == Some(self.id),
        ensures
            self.wf(b),
    {
        assert forall|i: int| 0 <= i < self@.len() implies (#[trigger] b[self@[i] as int].prev)
            == neighbour(self@, i, -1) by {
            assert(a[self@[i] as int].prev == neighbour(self@, i, -1));
        }
        assert forall|i: int| 0 <= i < self@.len() implies (#[trigger] b[self@[i] as int].next)
            == neighbour(self@, i, 1) by {
            assert(a[self@[i] as int].next == neighbour(self@, i, 1));
        }
    }

    /// The empty queue of identity `id`.
    pub fn new(id: usize) -> (q: WaitQ)
        ensures
            q.id == id,
            q@ == Seq::<usize>::empty(),
            q.first is None,
            q.last is None,
    {
        WaitQ { id, first: None, last: None, order: Ghost(Seq::empty()) }
    }

    /// Does nobody wait?
    pub fn is_empty<V>(&self, slots: &Vec<Sudog<V>>) -> (b: bool)
        requires
            self.wf(slots@),
        ensures
            b == (self@.len() == 0),
    {
        self.first.is_none()
    }

    /// Puts a sudog that is on no queue at the end of this one.
    pub fn enqueue<V>(&mut self, slots: &mut Vec<Sudog<V>>, sgp: usize)
        requires
            old(self).wf(old(slots)@),
            sgp < old(slots)@.len(),
            old(slots)@[sgp as int].q is None,
        ensures
            final(self).wf(final(slots)@),
            final(self)@ == old(self)@.push(sgp),
            final(self).id == old(self).id,
            final(slots)@.len() == old(slots)@.len(),
            forall|t: int|
                #![trigger final(slots)@[t]]
                0 <= t < old(slots)@.len() ==> same_payload(final(slots)@[t], old(slots)@[t]) && (t
                    != sgp ==> final(slots)@[t].q == old(slots)@[t].q) && (t != sgp
                    && old(slots)@[t].q != Some(old(self).id) ==> final(slots)@[t]
                    == old(slots)@[t]),
    {
        let ghost o = self@;
        proof {
            if o.contains(sgp) {
                assert(o[o.index_of(sgp)] == sgp);
            }
        }
        slots[sgp].next = None;
        slots[sgp].q = Some(self.id);
        match self.last {
            None => {
                slots[sgp].prev = None;
                self.first = Some(sgp);
                self.last = Some(sgp);
            },
            Some(last) => {
                assert(last == o[o.len() - 1]);
                slots[sgp].prev = Some(last);
                slots[last].next = Some(sgp);
                self.last = Some(sgp);
            },
        }
        self.order = Ghost(o.push(sgp));
        proof {
            let n = self@;
            let s0 = old(slots)@;
            assert forall|i: int| 0 <= i < n.len() implies (#[trigger] slots@[n[i] as int].prev)
                == neighbour(n, i, -1) by {
                if i < o.len() {
                    assert(o.contains(o[i]));
                    assert(s0[o[i] as int].prev == neighbour(o, i, -1));
                }
            }
            assert forall|i: int| 0 <= i < n.len() implies (#[trigger] slots@[n[i] as int].next)
                == neighbour(n, i, 1) by {
                if i < o.len() {
                    assert(o.contains(o[i]));
                    assert(s0[o[i] as int].next == neighbour(o, i, 1));
                }
            }
            assert forall|s: usize| s < slots@.len() && slots@[s as int].q == Some(self.id) implies
                #[trigger] n.contains(s) by {
                if s != sgp {
                    assert(s0[s as int].q == Some(self.id));
                    assert(o.contains(s));
                    assert(n[o.index_of(s)] == s);
                } else {
                    assert(n[o.len() as int] == s);
                }
            }
        }
    }

    /// Removes the first sudog.
    fn pop_front<V>(&mut self, slots: &mut Vec<Sudog<V>>) -> (r: Option<usize>)
        requires
            old(self).wf(old(slots)@),
        ensures
            final(self).wf(final(slots)@),
            final(self).id == old(self).id,
            r == neighbour(old(self)@, 0, 0),
            r is None ==> final(self)@ == old(self)@ && final(slots)@ == old(slots)@,
            r is Some ==> final(self)@ == old(self)@.skip(1) && final(slots)@[old(self)@[0] as int]
                == old(slots)@[old(self)@[0] as int].unlinked(),
            final(slots)@.len() == old(slots)@.len(),
            forall|t: int|
                #![trigger final(slots)@[t]]
                0 <= t < old(slots)@.len() ==> same_payload(final(slots)@[t], old(slots)@[t]) && (
                old(self)@.len() == 0 || t != old(self)@[0] ==> final(slots)@[t].q == old(slots)@[t].q)
                    && (old(slots)@[t].q != Some(old(self).id) ==> final(slots)@[t] == old(slots)@[t]),
    {
        let ghost o = self@;
        let ghost s0 = slots@;
        let sgp: usize = match self.first {
            None => {
                return None;
            },
            Some(s) => s,
        };
        assert(s0[o[0] as int].next == neighbour(o, 0, 1));
        let next = slots[sgp].next;
        match next {
            None => {
                self.first = None;
                self.last = None;
            },
            Some(n) => {
                assert(n == o[1]);
                slots[n].prev = None;
                self.first = Some(n);
                slots[sgp].next = None;
            },
        }
        slots[sgp].prev = None;
        slots[sgp].q = None;
        self.order = Ghost(o.skip(1));
        proof {
            let n = self@;
            assert forall|i: int| 0 <= i < n.len() implies (#[trigger] slots@[n[i] as int].prev)
                == neighbour(n, i, -1) by {
                assert(n[i] == o[i + 1] && o[i + 1] != o[0]);
                assert(s0[o[i + 1] as int].prev == neighbour(o, i + 1, -1));
                if i > 0 {
                    assert(o[i + 1] != o[1]);
                }
            }
            assert forall|i: int| 0 <= i < n.len() implies (#[trigger] slots@[n[i] as int].next)
                == neighbour(n, i, 1) by {
                assert(n[i] == o[i + 1] && o[i + 1] != o[0]);
                assert(s0[o[i + 1] as int].next == neighbour(o, i + 1, 1));
            }
            assert forall|s: usize| s < slots@.len() && slots@[s as int].q == Some(self.id) implies
                #[trigger] n.contains(s) by {
                assert(s0[s as int].q == Some(self.id));
                assert(o.contains(s));
                let j = o.index_of(s);
                assert(n[j - 1] == s);
            }
        }
        Some(sgp)
    }

    /// Takes the first sudog whose goroutine can be claimed, and claims it.
    ///
    /// Sudogs before it belong to a `select` that another operation has won;
    /// they leave the queue as well.
    pub fn dequeue<V>(&mut self, slots: &mut Vec<Sudog<V>>, gs: &mut Vec<G>) -> (r: Option<usize>)
        requires
            old(self).wf(old(slots)@),
            forall|i: int|
                0 <= i < old(self)@.len() && old(slots)@[(#[trigger] old(self)@[i]) as int].g is Some
                    ==> old(slots)@[old(self)@[i] as int].g->0 < old(gs)@.len(),
        ensures
            final(self).wf(final(slots)@),
            final(self).id == old(self).id,
            ({
                let k = first_claimable(old(self)@, old(slots)@, old(gs)@, 0);
                &&& k == old(self)@.len() ==> r is None && final(self)@ == Seq::<usize>::empty()
                    && final(gs)@ == old(gs)@
                &&& k < old(self)@.len() ==> r == Some(old(self)@[k as int]) && final(self)@
                    == old(self)@.skip(k as int + 1) && final(gs)@ == claimed(
                    old(slots)@[old(self)@[k as int] as int],
                    old(gs)@,
                )
                &&& forall|j: int|
                    0 <= j <= k && j < old(self)@.len() ==> final(slots)@[(
                    #[trigger] old(self)@[j]) as int] == old(slots)@[old(
                        self)@[j] as int].unlinked()
            }),
            final(slots)@.len() == old(slots)@.len(),
            forall|t: int|
                #![trigger final(slots)@[t]]
                0 <= t < old(slots)@.len() ==> same_payload(final(slots)@[t], old(slots)@[t]) && (
                final(slots)@[t].q == old(slots)@[t].q || final(slots)@[t].q is None
                    && old(slots)@[t].q == Some(old(self).id)) && (old(slots)@[t].q != Some(
                    old(self).id,
                ) ==> final(slots)@[t] == old(slots)@[t]),
    {
        let ghost o = self@;
        let ghost s0 = slots@;
        let ghost mut k: nat = 0;
        loop
            invariant
                self.wf(slots@),
                self.id == old(self).id,
                o == old(self)@,
                s0 == old(slots)@,
                o.no_duplicates(),
                forall|i: int|
                    0 <= i < o.len() ==> (#[trigger] o[i]) < s0.len() && s0[o[i] as int].q == Some(
                        self.id,
                    ),
                k <= o.len(),
                self@ == o.skip(k as int),
                gs@ == old(gs)@,
                first_claimable(o, s0, old(gs)@, 0) == first_claimable(o, s0, old(gs)@, k),
                slots@.len() == s0.len(),
                forall|i: int|
                    0 <= i < o.len() && s0[(#[trigger] o[i]) as int].g is Some
                        ==> s0[o[i] as int].g->0 < gs@.len(),
                forall|j: int|
                    0 <= j < k ==> slots@[(#[trigger] o[j]) as int].unlinked()
                        == slots@[o[j] as int] && slots@[o[j] as int].q is None,
                forall|t: int|
                    #![trigger slots@[t]]
                    0 <= t < s0.len() ==> same_payload(slots@[t], s0[t]) && (slots@[t].q == s0[t].q
                        || slots@[t].q is None && s0[t].q == Some(self.id)) && (s0[t].q != Some(
                        self.id,
                    ) ==> slots@[t] == s0[t]),
            decreases o.len() - k,
        {
            let ghost s1 = slots@;
            let sgp: usize = match self.pop_front(slots) {
                None => {
                    return None;
                },
                Some(s) => s,
            };
            proof {
                assert(sgp == o[k as int]);
                assert(o.skip(k as int).skip(1) =~= o.skip(k as int + 1));
                assert forall|j: int| 0 <= j <= k implies slots@[(#[trigger] o[j]) as int].unlinked()
                    == slots@[o[j] as int] && slots@[o[j] as int].q is None by {
                    if j < k {
                        assert(s1[o[j] as int].q is None);
                    }
                }
                assert forall|t: int| 0 <= t < s0.len() implies same_payload(#[trigger] slots@[t], s0[t])
                    && (slots@[t].q == s0[t].q || slots@[t].q is None && s0[t].q == Some(self.id))
                    && (s0[t].q != Some(self.id) ==> slots@[t] == s0[t]) by {
                    assert(same_payload(s1[t], s0[t]));
                }
            }
            if slots[sgp].is_select {
                let won: bool = match slots[sgp].g {
                    None => false,
                    Some(gp) => {
                        assert(s0[o[k as int] as int].g == Some(gp));
                        if gs[gp].selectdone == 0 {
                            gs[gp].selectdone = 1;
                            true
                        } else {
                            false
                        }
                    },
                };
                if !won {
                    proof {
                        assert(!claimable(s0[o[k as int] as int], old(gs)@));
                        k = k + 1;
                    }
                    continue ;
                }
            }
            assert(claimable(s0[o[k as int] as int], old(gs)@));
            assert(gs@ =~= claimed(s0[o[k as int] as int], old(gs)@));
            return Some(sgp);
        }
    }

    /// Removes a sudog wherever it stands; does nothing, and says so, where it
    /// is not on this queue.
    pub fn dequeue_sudog<V>(&mut self, slots: &mut Vec<Sudog<V>>, sgp: usize) -> (r: bool)
        requires
            old(self).wf(old(slots)@),
            sgp < old(slots)@.len(),
        ensures
            final(self).wf(final(slots)@),
            final(self).id == old(self).id,
            r == old(self)@.contains(sgp),
            !r ==> final(self)@ == old(self)@ && final(slots)@ == old(slots)@,
            r ==> final(self)@ == old(self)@.remove(old(self)@.index_of(sgp)) && final(
                slots)@[sgp as int] == old(slots)@[sgp as int].unlinked(),
            final(slots)@.len() == old(slots)@.len(),
            forall|t: int|
                #![trigger final(slots)@[t]]
                0 <= t < old(slots)@.len() ==> same_payload(final(slots)@[t], old(slots)@[t]) && (t
                    != sgp ==> final(slots)@[t].q == old(slots)@[t].q) && (old(slots)@[t].q != Some(
                    old(self).id,
                ) ==> final(slots)@[t] == old(slots)@[t]),
    {
        let here: bool = match slots[sgp].q {
            None => false,
            Some(id) => id == self.id,
        };
        if !here {
            proof {
                if self@.contains(sgp) {
                    let i = self@.index_of(sgp);
                    assert(slots@[self@[i] as int].q == Some(self.id));
                }
            }
            return false;
        }
        let ghost o = self@;
        let ghost s0 = slots@;
        assert(o.contains(sgp));
        let ghost k = o.index_of(sgp);
        assert(o[k] == sgp);
        assert(s0[o[k] as int].prev == neighbour(o, k, -1));
        assert(s0[o[k] as int].next == neighbour(o, k, 1));
        let prev = slots[sgp].prev;
        let next = slots[sgp].next;
        match prev {
            Some(pv) => {
                assert(pv == o[k - 1]);
                slots[pv].next = next;
            },
            None => {
                self.first = next;
            },
        }
        match next {
            Some(nx) => {
                assert(nx == o[k + 1]);
                slots[nx].prev = prev;
            },
            None => {
                self.last = prev;
            },
        }
        slots[sgp].next = None;
        slots[sgp].prev = None;
        slots[sgp].q = None;
        self.order = Ghost(o.remove(k));
        proof {
            lemma_removed(o, k, self.id, s0, slots@);
        }
        true
    }
}

/// Taking position `k` out of the links leaves the links of the rest.
#[verifier::spinoff_prover]
#[verifier::rlimit(40)]
proof fn lemma_removed<V>(o: Seq<usize>, k: int, id: usize, a: Seq<Sudog<V>>, b: Seq<Sudog<V>>)
    requires
        0 <= k < o.len(),
        (WaitQ {
            id,
            first: neighbour(o, 0, 0),
            last: neighbour(o, o.len() as int, -1),
            order: Ghost(o),
        }).wf(a),
        a.len() == b.len(),
        forall|t: int|
            #![trigger b[t]]
            0 <= t < a.len() ==> b[t].q == (if t == o[k] {
                None
            } else {
                a[t].q
            }) && b[t].prev == (if t == o[k] {
                None
            } else if k + 1 < o.len() && t == o[k + 1] {
                neighbour(o, k, -1)
            } else {
                a[t].prev
            }) && b[t].next == (if t == o[k] {
                None
            } else if k > 0 && t == o[k - 1] {
                neighbour(o, k, 1)
            } else {
                a[t].next
            }),
    ensures
        (WaitQ {
            id,
            first: neighbour(o.remove(k), 0, 0),
            last: neighbour(o.remove(k), o.len() - 1, -1),
            order: Ghost(o.remove(k)),
        }).wf(b),
{
    let n = o.remove(k);
    assert forall|i: int| 0 <= i < n.len() implies (#[trigger] n[i]) < b.len() && b[n[i] as int].q
        == Some(id) by {
        let j = if i < k {
            i
        } else {
            i + 1
        };
        assert(n[i] == o[j] && o[j] != o[k]);
    }
    assert forall|i: int| 0 <= i < n.len() implies (#[trigger] b[n[i] as int].prev) == neighbour(
        n,
        i,
        -1,
    ) by {
        let j = if i < k {
            i
        } else {
            i + 1
        };
        assert(n[i] == o[j] && o[j] != o[k]);
        assert(a[o[j] as int].prev == neighbour(o, j, -1));
    }
    assert forall|i: int| 0 <= i < n.len() implies (#[trigger] b[n[i] as int].next) == neighbour(
        n,
        i,
        1,
    ) by {
        let j = if i < k {
            i
        } else {
            i + 1
        };
        assert(n[i] == o[j] && o[j] != o[k]);
        assert(a[o[j] as int].next == neighbour(o, j, 1));
    }
    assert forall|s: usize| s < b.len() && b[s as int].q == Some(id) implies #[trigger] n.contains(
        s,
    ) by {
        assert(a[s as int].q == Some(id));
        assert(o.contains(s));
        let j = o.index_of(s);
        if j < k {
            assert(n[j] == s);
        } else {
            assert(n[j - 1] == s);
        }
    }
}

/// A stack of free sudogs.
pub struct SudogCache {
    list: Vec<usize>,
}

impl View for SudogCache {
    type V = Seq<usize>;

    closed spec fn view(&self) -> Seq<usize> {
        self.list@
    }
}

impl SudogCache {
    /// The empty stack.
    pub fn new() -> (c: SudogCache)
        ensures
            c@ == Seq::<usize>::empty(),
    {
        SudogCache { list: Vec::new() }
    }

    /// Takes the sudog that was put last.
    pub fn pop(&mut self) -> (s: Option<usize>)
        ensures
            old(self)@.len() == 0 ==> s is None && final(self)@ == old(self)@,
            old(self)@.len() > 0 ==> s == Some(old(self)@.last()) && final(self)@
                == old(self)@.drop_last(),
    {
        self.list.pop()
    }

    /// Puts a sudog on top.
    pub fn push(&mut self, s: usize)
        ensures
            final(self)@ == old(self)@.push(s),
    {
        self.list.push(s);
    }

    /// The number of sudogs.
    pub fn len(&self) -> (n: usize)
        ensures
            n == self@.len(),
    {
        self.list.len()
    }
}

/// Where a free sudog lies.
pub enum Place {
    /// Given back to the allocator.
    Vacant(int),
    /// On the central list.
    Central(int),
    /// On the list of a processor.
    Local(int, int),
}

/// All sudogs, those in use and the free ones.
pub struct SudogPool<V> {
    /// The sudogs.
    pub slots: Vec<Sudog<V>>,
    /// Slots that hold no live sudog.
    pub vacant: Vec<usize>,
    /// Free sudogs that any processor may take.
    pub central: SudogCache,
    /// Free sudogs of each processor.
    pub locals: Vec<SudogCache>,
    /// Where each free sudog lies.
    pub place: Ghost<Map<usize, Place>>,
}

/// The free lists of a pool.
#[verifier::ext_equal]
pub struct PoolView {
    pub nslots: nat,
    pub vacant: Seq<usize>,
    pub central: Seq<usize>,
    pub locals: Seq<Seq<usize>>,
}

/// The smaller of two numbers.
pub open spec fn least(a: int, b: int) -> int {
    if a <= b {
        a
    } else {
        b
    }
}

impl PoolView {
    /// A processor with an empty list has taken a batch from the central one.
    pub open spec fn refilled(self, p: int) -> PoolView {
        let n = self.central.len() as int;
        let k = least(64, n);
        if self.locals[p].len() == 0 {
            PoolView {
                central: self.central.take(n - k),
                locals: self.locals.update(p, self.central.skip(n - k).reverse()),
                ..self
            }
        } else {
            self
        }
    }

    /// The sudog that is handed out when the lists have none.
    pub open spec fn allocated(self) -> usize {
        if self.vacant.len() > 0 {
            self.vacant.last()
        } else {
            self.nslots as usize
        }
    }

    /// The pool after such a sudog was handed out.
    pub open spec fn after_alloc(self) -> PoolView {
        if self.vacant.len() > 0 {
            PoolView { vacant: self.vacant.drop_last(), ..self }
        } else {
            PoolView { nslots: self.nslots + 1, ..self }
        }
    }

    /// The sudog that is handed out next: the newest of the processor's own
    /// list, filled up first where it was empty; without a processor the newest
    /// of the central list; where there is none, a new one.
    pub open spec fn acquired(self, p: Option<usize>) -> usize {
        match p {
            Some(p) => {
                let local = self.refilled(p as int).locals[p as int];
                if local.len() > 0 {
                    local.last()
                } else {
                    self.allocated()
                }
            },
            None => if self.central.len() > 0 {
                self.central.last()
            } else {
                self.allocated()
            },
        }
    }

    /// The pool after that sudog was handed out.
    pub open spec fn after_acquire(self, p: Option<usize>) -> PoolView {
        match p {
            Some(p) => {
                let r = self.refilled(p as int);
                let local = r.locals[p as int];
                if local.len() > 0 {
                    PoolView { locals: r.locals.update(p as int, local.drop_last()), ..r }
                } else {
                    self.after_alloc()
                }
            },
            None => if self.central.len() > 0 {
                PoolView { central: self.central.drop_last(), ..self }
            } else {
                self.after_alloc()
            },
        }
    }

    /// The pool after sudogs were put on the central list, as far as that has
    /// room, and the others were given up.
    pub open spec fn flushed(self, batch: Seq<usize>) -> PoolView {
        let room = least(batch.len() as int, if self.central.len() < 4096 {
            4096 - self.central.len()
        } else {
            0
        });
        PoolView {
            central: self.central + batch.take(room),
            vacant: self.vacant + batch.skip(room),
            ..self
        }
    }

    /// The pool after `s` came back.  A processor's full list first sends its
    /// newest half away.
    pub open spec fn after_release(self, p: Option<usize>, s: usize) -> PoolView {
        match p {
            Some(p) => {
                let local = self.locals[p as int];
                let n = local.len() as int;
                if n >= 128 {
                    let f = self.flushed(local.skip(n - 64).reverse());
                    PoolView { locals: f.locals.update(p as int, local.take(n - 64).push(s)), ..f }
                } else {
                    PoolView { locals: self.locals.update(p as int, local.push(s)), ..self }
                }
            },
            None => self.flushed(seq![s]),
        }
    }
}

impl<V> View for SudogPool<V> {
    type V = PoolView;

    open spec fn view(&self) -> PoolView {
        PoolView {
            nslots: self.slots@.len(),
            vacant: self.vacant@,
            central: self.central@,
            locals: Seq::new(self.locals@.len(), |i: int| self.locals@[i]@),
        }
    }
}

impl<V> SudogPool<V> {
    /// The sudog is in nobody's hands.
    pub open spec fn free(self, s: usize) -> bool {
        self.place@.dom().contains(s)
    }

    /// The sudog is in somebody's hands.
    pub open spec fn in_use(self, s: usize) -> bool {
        s < self.slots@.len() && !self.free(s)
    }

    /// A free sudog is where the record says.
    pub open spec fn lies_at(self, s: usize, place: Place) -> bool {
        match place {
            Place::Vacant(i) => 0 <= i < self.vacant@.len() && self.vacant@[i] == s,
            Place::Central(i) => 0 <= i < self.central@.len() && self.central@[i] == s,
            Place::Local(p, i) => 0 <= p < self.locals@.len() && 0 <= i < self.locals@[p]@.len()
                && self.locals@[p]@[i] == s,
        }
    }

    /// No free sudog is listed twice or on a queue, and no list is over its
    /// limit.
    pub open spec fn wf(self) -> bool {
        &&& forall|i: int|
            0 <= i < self.vacant@.len() ==> self.free(#[trigger] self.vacant@[i])
                && self.place@[self.vacant@[i]] == Place::Vacant(i)
        &&& forall|i: int|
            0 <= i < self.central@.len() ==> self.free(#[trigger] self.central@[i])
                && self.place@[self.central@[i]] == Place::Central(i)
        &&& forall|p: int, i: int|
            0 <= p < self.locals@.len() && 0 <= i < self.locals@[p]@.len() ==> self.free(
                #[trigger] self.locals@[p]@[i],
            ) && self.place@[self.locals@[p]@[i]] == Place::Local(p, i)
        &&& forall|s: usize| #[trigger]
            self.free(s) ==> s < self.slots@.len() && self.slots@[s as int].q is None
                && self.lies_at(s, self.place@[s])
        &&& self.central@.len() <= 4096
        &&& forall|p: int| 0 <= p < self.locals@.len() ==> (#[trigger] self.locals@[p])@.len() <= 128
    }

    /// A pool without sudogs, for `nprocs` processors.
    pub fn new(nprocs: usize) -> (pool: SudogPool<V>)
        ensures
            pool.wf(),
            pool.slots@.len() == 0,
            pool@ == (PoolView {
                nslots: 0,
                vacant: Seq::empty(),
                central: Seq::empty(),
                locals: Seq::new(nprocs as nat, |i: int| Seq::<usize>::empty()),
            }),
    {
        let mut locals: Vec<SudogCache> = Vec::new();
        let mut i: usize = 0;
        while i < nprocs
            invariant
                i <= nprocs,
                locals@.len() == i,
                forall|j: int| 0 <= j < i ==> (#[trigger] locals@[j])@ == Seq::<usize>::empty(),
            decreases nprocs - i,
        {
            locals.push(SudogCache::new());
            i = i + 1;
        }
        let pool: SudogPool<V> = SudogPool {
            slots: Vec::new(),
            vacant: Vec::new(),
            central: SudogCache::new(),
            locals,
            place: Ghost(Map::empty()),
        };
        assert(pool@.locals =~= Seq::new(nprocs as nat, |i: int| Seq::<usize>::empty()));
        assert(pool@.vacant =~= Seq::empty());
        pool
    }

    /// Gives one more processor a list.
    pub fn add_local(&mut self)
        requires
            old(self).wf(),
        ensures
            final(self).wf(),
            final(self).slots@ == old(self).slots@,
            final(self).place@ == old(self).place@,
            final(self)@ == (PoolView {
                locals: old(self)@.locals.push(Seq::empty()),
                ..old(self)@
            }),
    {
        self.locals.push(SudogCache::new());
        proof {
            assert(self@.locals =~= old(self)@.locals.push(Seq::empty()));
            assert forall|s: usize| #[trigger] self.free(s) implies s < self.slots@.len()
                && self.slots@[s as int].q is None && self.lies_at(s, self.place@[s]) by {
                assert(old(self).free(s));
            }
        }
    }

    fn pop_central(&mut self) -> (r: Option<usize>)
        requires
            old(self).wf(),
        ensures
            final(self).wf(),
            final(self).slots@ == old(self).slots@,
            old(self)@.central.len() == 0 ==> r is None && final(self)@ == old(self)@
                && final(self).place@ == old(self).place@,
            old(self)@.central.len() > 0 ==> r == Some(old(self)@.central.last()) && final(self)@
                == (PoolView { central: old(self)@.central.drop_last(), ..old(self)@ })
                && final(self).place@ == old(self).place@.remove(r->0) && old(self).free(r->0),
    {
        let r = self.central.pop();
        match r {
            None => {
                proof {
                    assert(self@.locals =~= old(self)@.locals);
                    assert forall|t: usize| #[trigger] self.free(t) implies t < self.slots@.len()
                        && self.slots@[t as int].q is None && self.lies_at(t, self.place@[t]) by {
                        assert(old(self).free(t));
                    }
                }
                None
            },
            Some(s) => {
                self.place = Ghost(self.place@.remove(s));
                proof {
                    let n = old(self).central@.len() - 1;
                    assert(s == old(self).central@[n]);
                    assert(self@.locals =~= old(self)@.locals);
                    assert forall|i: int| 0 <= i < self.central@.len() implies self.free(
                        #[trigger] self.central@[i],
                    ) && self.place@[self.central@[i]] == Place::Central(i) by {
                        assert(old(self).free(old(self).central@[i]));
                    }
                    assert forall|t: usize| #[trigger] self.free(t) implies t < self.slots@.len()
                        && self.slots@[t as int].q is None && self.lies_at(t, self.place@[t]) by {
                        assert(old(self).free(t));
                    }
                }
                Some(s)
            },
        }
    }

    fn push_central(&mut self, s: usize)
        requires
            old(self).wf(),
            old(self).in_use(s),
            old(self).slots@[s as int].q is None,
            old(self)@.central.len() < 4096,
        ensures
            final(self).wf(),
            final(self).slots@ == old(self).slots@,
            final(self)@ == (PoolView { central: old(self)@.central.push(s), ..old(self)@ }),
            final(self).place@.dom() == old(self).place@.dom().insert(s),
    {
        self.place = Ghost(self.place@.insert(s, Place::Central(self.central@.len() as int)));
        self.central.push(s);
        proof {
            assert(self@.locals =~= old(self)@.locals);
            assert forall|i: int| 0 <= i < self.central@.len() implies self.free(
                #[trigger] self.central@[i],
            ) && self.place@[self.central@[i]] == Place::Central(i) by {
                if i < old(self).central@.len() {
                    assert(old(self).free(old(self).central@[i]));
                }
            }
            assert forall|t: usize| #[trigger] self.free(t) implies t < self.slots@.len()
                && self.slots@[t as int].q is None && self.lies_at(t, self.place@[t]) by {
                if t != s {
                    assert(old(self).free(t));
                }
            }
        }
    }

    fn pop_local(&mut self, p: usize) -> (r: Option<usize>)
        requires
            old(self).wf(),
            p < old(self)@.locals.len(),
        ensures
            final(self).wf(),
            final(self).slots@ == old(self).slots@,
            old(self)@.locals[p as int].len() == 0 ==> r is None && final(self)@ == old(self)@
                && final(self).place@ == old(self).place@,
            old(self)@.locals[p as int].len() > 0 ==> r == Some(old(self)@.locals[p as int].last())
                && final(self)@ == (PoolView {
                locals: old(self)@.locals.update(
                    p as int,
                    old(self)@.locals[p as int].drop_last(),
                ),
                ..old(self)@
            }) && final(self).place@ == old(self).place@.remove(r->0) && old(self).free(r->0),
    {
        let r = self.locals[p].pop();
        match r {
            None => {
                assert(self@.locals =~= old(self)@.locals);
                assert forall|q: int| 0 <= q < self.locals@.len() implies (
                #[trigger] self.locals@[q])@ == old(self).locals@[q]@ by {}
                assert forall|t: usize| #[trigger] self.free(t) implies t < self.slots@.len()
                    && self.slots@[t as int].q is None && self.lies_at(t, self.place@[t]) by {
                    assert(old(self).free(t));
                }
                None
            },
            Some(s) => {
                self.place = Ghost(self.place@.remove(s));
                proof {
                    let l = old(self).locals@[p as int]@;
                    let n = l.len() - 1;
                    assert(s == old(self).locals@[p as int]@[n]);
                    assert(self@.locals =~= old(self)@.locals.update(p as int, l.drop_last()));
                    assert forall|q: int, i: int|
                        0 <= q < self.locals@.len() && 0 <= i < self.locals@[q]@.len() implies self.free(
                        #[trigger] self.locals@[q]@[i],
                    ) && self.place@[self.locals@[q]@[i]] == Place::Local(q, i) by {
                        assert(self.locals@[q]@[i] == old(self).locals@[q]@[i]);
                        assert(old(self).free(old(self).locals@[q]@[i]));
                    }
                    assert forall|t: usize| #[trigger] self.free(t) implies t < self.slots@.len()
                        && self.slots@[t as int].q is None && self.lies_at(t, self.place@[t]) by {
                        assert(old(self).free(t));
                    }
                }
                Some(s)
            },
        }
    }

    fn push_local(&mut self, p: usize, s: usize)
        requires
            old(self).wf(),
            p < old(self)@.locals.len(),
            old(self).in_use(s),
            old(self).slots@[s as int].q is None,
            old(self)@.locals[p as int].len() < 128,
        ensures
            final(self).wf(),
            final(self).slots@ == old(self).slots@,
            final(self)@ == (PoolView {
                locals: old(self)@.locals.update(p as int, old(self)@.locals[p as int].push(s)),
                ..old(self)@
            }),
            final(self).place@.dom() == old(self).place@.dom().insert(s),
    {
        self.place = Ghost(
            self.place@.insert(s, Place::Local(p as int, self.locals@[p as int]@.len() as int)),
        );
        self.locals[p].push(s);
        proof {
            let l = old(self).locals@[p as int]@;
            assert(self@.locals =~= old(self)@.locals.update(p as int, l.push(s)));
            assert forall|q: int, i: int|
                0 <= q < self.locals@.len() && 0 <= i < self.locals@[q]@.len() implies self.free(
                #[trigger] self.locals@[q]@[i],
            ) && self.place@[self.locals@[q]@[i]] == Place::Local(q, i) by {
                if q != p || i < l.len() {
                    assert(self.locals@[q]@[i] == old(self).locals@[q]@[i]);
                    assert(old(self).free(old(self).locals@[q]@[i]));
                }
            }
            assert forall|t: usize| #[trigger] self.free(t) implies t < self.slots@.len()
                && self.slots@[t as int].q is None && self.lies_at(t, self.place@[t]) by {
                if t != s {
                    assert(old(self).free(t));
                }
            }
        }
    }

    fn push_vacant(&mut self, s: usize)
        requires
            old(self).wf(),
            old(self).in_use(s),
            old(self).slots@[s as int].q is None,
        ensures
            final(self).wf(),
            final(self).slots@ == old(self).slots@,
            final(self)@ == (PoolView { vacant: old(self)@.vacant.push(s), ..old(self)@ }),
            final(self).place@.dom() == old(self).place@.dom().insert(s),
    {
        self.place = Ghost(self.place@.insert(s, Place::Vacant(self.vacant@.len() as int)));
        self.vacant.push(s);
        proof {
            assert(self@.locals =~= old(self)@.locals);
            assert forall|i: int| 0 <= i < self.vacant@.len() implies self.free(
                #[trigger] self.vacant@[i],
            ) && self.place@[self.vacant@[i]] == Place::Vacant(i) by {
                if i < old(self).vacant@.len() {
                    assert(old(self).free(old(self).vacant@[i]));
                }
            }
            assert forall|t: usize| #[trigger] self.free(t) implies t < self.slots@.len()
                && self.slots@[t as int].q is None && self.lies_at(t, self.place@[t]) by {
                if t != s {
                    assert(old(self).free(t));
                }
            }
        }
    }

    /// Hands out a sudog with nothing in it, for the goroutine that runs on
    /// processor `p`, or outside of any.
    pub fn acquire_sudog(&mut self, p: Option<usize>) -> (s: usize)
        requires
            old(self).wf(),
            p is Some ==> p->0 < old(self)@.locals.len(),
        ensures
            final(self).wf(),
            s == old(self)@.acquired(p),
            final(self)@ == old(self)@.after_acquire(p),
            !old(self).in_use(s),
            final(self).slots@[s as int] == Sudog::<V>::empty(),
            forall|t: usize| #[trigger] final(self).in_use(t) <==> t == s || old(self).in_use(t),
            forall|t: int|
                0 <= t < old(self).slots@.len() && t != s ==> #[trigger] final(self).slots@[t]
                    == old(self).slots@[t],
    {
        let got: Option<usize> = match p {
            Some(p) => {
                if self.locals[p].len() == 0 {
                    self.refill(p);
                }
                self.pop_local(p)
            },
            None => self.pop_central(),
        };
        match got {
            Some(s) => {
                let ghost mid = *self;
                self.slots[s] = Sudog::zeroed();
                proof {
                    assert forall|t: usize| #[trigger] self.free(t) implies t < self.slots@.len()
                        && self.slots@[t as int].q is None && self.lies_at(t, self.place@[t]) by {
                        assert(mid.free(t));
                    }
                    assert(self@.locals =~= mid@.locals);
                }
                s
            },
            None => {
                proof {
                    if p is Some {
                        let i = p->0 as int;
                        let r = old(self)@.refilled(i);
                        assert(r.central =~= old(self)@.central);
                        assert(r.locals[i] =~= old(self)@.locals[i]);
                        assert(r.locals =~= old(self)@.locals);
                    }
                }
                self.take_new()
            },
        }
    }

    fn refill(&mut self, p: usize)
        requires
            old(self).wf(),
            p < old(self)@.locals.len(),
            old(self)@.locals[p as int].len() == 0,
        ensures
            final(self).wf(),
            final(self).slots@ == old(self).slots@,
            final(self)@ == old(self)@.refilled(p as int),
            final(self).place@.dom() == old(self).place@.dom(),
    {
        let ghost c0 = self@.central;
        let ghost n = c0.len() as int;
        let mut j: usize = 0;
        proof {
            assert(c0.take(n) =~= c0);
            assert(self@.locals[p as int] =~= c0.skip(n).reverse());
            assert(self@.locals.update(p as int, c0.skip(n).reverse()) =~= self@.locals);
        }
        while j < BATCH
            invariant_except_break
                j <= BATCH,
                j <= n,
                self.wf(),
                c0 == old(self)@.central,
                n == c0.len(),
                p < old(self)@.locals.len(),
                self.slots@ == old(self).slots@,
                old(self)@.locals[p as int].len() == 0,
                self@ == (PoolView {
                    central: c0.take(n - j),
                    locals: old(self)@.locals.update(p as int, c0.skip(n - j).reverse()),
                    ..old(self)@
                }),
                self.place@.dom() == old(self).place@.dom(),
            ensures
                self.wf(),
                self.slots@ == old(self).slots@,
                self@ == old(self)@.refilled(p as int),
                self.place@.dom() == old(self).place@.dom(),
            decreases BATCH - j,
        {
            let ghost before = self.place@.dom();
            match self.pop_central() {
                None => {
                    assert(n == j);
                    break ;
                },
                Some(t) => {
                    self.push_local(p, t);
                    assert(self.place@.dom() =~= before);
                    j = j + 1;
                    proof {
                        assert(c0.take(n - j + 1).drop_last() =~= c0.take(n - j));
                        assert(c0.skip(n - j + 1).reverse().push(t) =~= c0.skip(n - j).reverse());
                        assert(self@.locals =~= old(self)@.locals.update(
                            p as int,
                            c0.skip(n - j).reverse(),
                        ));
                    }
                },
            }
        }
    }

    fn take_new(&mut self) -> (s: usize)
        requires
            old(self).wf(),
        ensures
            final(self).wf(),
            s == old(self)@.allocated(),
            final(self)@ == old(self)@.after_alloc(),
            !old(self).in_use(s),
            final(self).slots@[s as int] == Sudog::<V>::empty(),
            forall|t: usize| #[trigger] final(self).in_use(t) <==> t == s || old(self).in_use(t),
            forall|t: int|
                0 <= t < old(self).slots@.len() && t != s ==> #[trigger] final(self).slots@[t]
                    == old(self).slots@[t],
    {
        match self.vacant.pop() {
            Some(s) => {
                self.place = Ghost(self.place@.remove(s));
                self.slots[s] = Sudog::zeroed();
                proof {
                    let n = old(self).vacant@.len() - 1;
                    assert(s == old(self).vacant@[n]);
                    assert(self@.locals =~= old(self)@.locals);
                    assert forall|i: int| 0 <= i < self.vacant@.len() implies self.free(
                        #[trigger] self.vacant@[i],
                    ) && self.place@[self.vacant@[i]] == Place::Vacant(i) by {
                        assert(old(self).free(old(self).vacant@[i]));
                    }
                    assert forall|t: usize| #[trigger] self.free(t) implies t < self.slots@.len()
                        && self.slots@[t as int].q is None && self.lies_at(t, self.place@[t]) by {
                        assert(old(self).free(t));
                    }
                }
                s
            },
            None => {
                let s: usize = self.slots.len();
                self.slots.push(Sudog::zeroed());
                proof {
                    assert(self@.locals =~= old(self)@.locals);
                    assert forall|t: usize| #[trigger] self.free(t) implies t < self.slots@.len()
                        && self.slots@[t as int].q is None && self.lies_at(t, self.place@[t]) by {
                        assert(old(self).free(t));
                    }
                    assert(!self.free(s)) by {
                        if old(self).free(s) {
                        }
                    }
                }
                s
            },
        }
    }

    /// Takes a sudog back.  It must be cleared and on no queue.
    pub fn release_sudog(&mut self, p: Option<usize>, s: usize)
        requires
            old(self).wf(),
            p is Some ==> p->0 < old(self)@.locals.len(),
            old(self).in_use(s),
            old(self).slots@[s as int].elem == Elem::<V>::Null,
            old(self).slots@[s as int].g is None,
            old(self).slots@[s as int].c is None,
            old(self).slots@[s as int].q is None,
        ensures
            final(self).wf(),
            final(self).slots@ == old(self).slots@,
            final(self)@ == old(self)@.after_release(p, s),
            forall|t: usize| #[trigger] final(self).in_use(t) <==> t != s && old(self).in_use(t),
    {
        match p {
            Some(p) => {
                if self.locals[p].len() >= LOCAL_CAP {
                    self.flush(p);
                }
                self.push_local(p, s);
                assert(self@.locals =~= old(self)@.after_release(Some(p), s).locals);
            },
            None => {
                if self.central.len() < CENTRAL_CAP {
                    self.push_central(s);
                    assert(self@.vacant =~= old(self)@.after_release(None, s).vacant);
                    assert(self@.central =~= old(self)@.after_release(None, s).central);
                } else {
                    self.push_vacant(s);
                    assert(self@.vacant =~= old(self)@.after_release(None, s).vacant);
                    assert(self@.central =~= old(self)@.after_release(None, s).central);
                }
            },
        }
    }

    fn flush(&mut self, p: usize)
        requires
            old(self).wf(),
            p < old(self)@.locals.len(),
            old(self)@.locals[p as int].len() >= 128,
        ensures
            final(self).wf(),
            final(self).slots@ == old(self).slots@,
            final(self).place@.dom() == old(self).place@.dom(),
            ({
                let local = old(self)@.locals[p as int];
                let n = local.len() as int;
                let f = old(self)@.flushed(local.skip(n - 64).reverse());
                final(self)@ == (PoolView { locals: f.locals.update(p as int, local.take(n - 64)), ..f })
            }),
    {
        let ghost v0 = self@;
        let ghost local = v0.locals[p as int];
        let ghost n = local.len() as int;
        let mut j: usize = 0;
        proof {
            assert(local.take(n) =~= local);
            assert(v0.locals.update(p as int, local) =~= v0.locals);
            assert(local.skip(n).reverse() =~= Seq::empty());
            assert(v0.flushed(Seq::empty()) =~= v0);
        }
        while j < BATCH
            invariant
                j <= BATCH,
                self.wf(),
                v0 == old(self)@,
                local == v0.locals[p as int],
                n == local.len(),
                n >= 128,
                p < v0.locals.len(),
                self@.locals.len() == v0.locals.len(),
                v0.central.len() <= 4096,
                self.slots@ == old(self).slots@,
                self.place@.dom() == old(self).place@.dom(),
                ({
                    let f = v0.flushed(local.skip(n - j).reverse());
                    self@ == (PoolView { locals: f.locals.update(p as int, local.take(n - j)), ..f })
                }),
            decreases BATCH - j,
        {
            let ghost dom0 = self.place@.dom();
            let ghost v1 = self@;
            match self.pop_local(p) {
                None => {},
                Some(t) => {
                    let ghost b0 = local.skip(n - j).reverse();
                    let ghost b1 = local.skip(n - j - 1).reverse();
                    proof {
                        assert(t == local[n - j - 1]);
                        assert(b1 =~= b0.push(t));
                        assert(local.take(n - j).drop_last() =~= local.take(n - j - 1));
                    }
                    if self.central.len() < CENTRAL_CAP {
                        self.push_central(t);
                        proof {
                            let r = b0.len() as int;
                            assert(b0.take(r) =~= b0 && b1.take(r + 1) =~= b1);
                            assert(b0.skip(r) =~= Seq::empty() && b1.skip(r + 1) =~= Seq::empty());
                        }
                    } else {
                        self.push_vacant(t);
                        proof {
                            let r = 4096 - v0.central.len();
                            assert(b1.take(r) =~= b0.take(r));
                            assert(b1.skip(r) =~= b0.skip(r).push(t));
                        }
                    }
                    proof {
                        assert(self.place@.dom() =~= dom0);
                        let f = v0.flushed(b1);
                        assert(self@.locals =~= f.locals.update(p as int, local.take(n - j - 1)));
                        assert(self@.central =~= f.central);
                        assert(self@.vacant =~= f.vacant);
                    }
                },
            }
            j = j + 1;
        }
    }
}

/// What a goroutine releases it gets back at its next acquisition.
pub proof fn released_sudog_comes_back(v: PoolView, p: Option<usize>, s: usize)
    requires
        p is Some ==> p->0 < v.locals.len(),
        p is None ==> v.central.len() < 4096,
    ensures
        v.after_release(p, s).acquired(p) == s,
{
}

/// The free sudogs are neither lost nor doubled when one is released: the lists
/// then hold what they held, and that one.
pub proof fn release_adds_one(v: PoolView, p: usize, s: usize)
    requires
        p < v.locals.len(),
    ensures
        ({
            let w = v.after_release(Some(p), s);
            w.central.len() + w.vacant.len() + w.locals[p as int].len() == v.central.len()
                + v.vacant.len() + v.locals[p as int].len() + 1
        }),
{
}

/// A sudog with nothing in it belongs to nobody, waits nowhere and holds no value.
pub proof fn a_new_sudog_is_blank<V>()
    ensures
        ({
            let s = Sudog::<V>::empty();
            &&& s.g is None && s.c is None && s.q is None && s.next is None && s.prev is None
            &&& s.elem is Null && !s.is_select && !s.success && !s.boxed_elem
        }),
{
}

/// A goroutine is taken from a queue exactly when nobody else has claimed it; then
/// nobody else can, and only its claim changes.
pub proof fn a_goroutine_is_claimed_once<V>(s: Sudog<V>, t: Sudog<V>, gs: Seq<G>, g: usize, h: int)
    requires
        g < gs.len(),
        s.g == Some(g),
        t.g == Some(g),
        t.is_select,
        0 <= h < gs.len(),
    ensures
        !s.is_select ==> claimable(s, gs) && claimed(s, gs) == gs,
        s.is_select ==> (claimable(s, gs) <==> gs[g as int].selectdone == 0),
        s.is_select ==> !claimable(t, claimed(s, gs)),
        s.is_select ==> claimed(s, gs)[g as int] == (G { selectdone: 1, ..gs[g as int] }),
        h != g ==> claimed(s, gs)[h] == gs[h],
        claimed(s, gs).len() == gs.len(),
{
}

/// A processor takes the sudog that it released last; without any it first takes up
/// to 64 off the end of the central list; and only where that is empty as well does
/// a new one come, in the place of one that was given up if there is any.
pub proof fn a_processor_takes_its_own_first(v: PoolView, p: usize)
    requires
        p < v.locals.len(),
    ensures
        ({
            let w = v.after_acquire(Some(p));
            let s = v.acquired(Some(p));
            let own = v.locals[p as int];
            let n = v.central.len() as int;
            let k = if n < 64 {
                n
            } else {
                64
            };
            &&& own.len() > 0 ==> s == own[own.len() - 1] && w.locals[p as int] == own.take(
                own.len() - 1,
            ) && w.central == v.central && w.vacant == v.vacant && w.nslots == v.nslots
            &&& own.len() == 0 && n > 0 ==> {
                &&& w.central == v.central.take(n - k)
                &&& s == v.central[n - k]
                &&& w.locals[p as int].len() == k - 1
                &&& forall|i: int|
                    0 <= i < k - 1 ==> #[trigger] w.locals[p as int][i] == v.central[n - 1 - i]
                &&& w.vacant == v.vacant && w.nslots == v.nslots
            }
            &&& own.len() == 0 && n == 0 && v.vacant.len() > 0 ==> s == v.vacant[v.vacant.len() - 1]
                && w.vacant == v.vacant.take(v.vacant.len() - 1) && w.nslots == v.nslots
            &&& own.len() == 0 && n == 0 && v.vacant.len() == 0 ==> s == v.nslots as usize
                && w.nslots == v.nslots + 1 && w.vacant == v.vacant
            &&& own.len() == 0 && n == 0 ==> w.locals == v.locals && w.central == v.central
            &&& w.locals.len() == v.locals.len()
            &&& forall|q: int|
                0 <= q < v.locals.len() && q != p ==> #[trigger] w.locals[q] == v.locals[q]
        }),
{
}

/// Whoever has no processor takes the newest of the central list, and where that is
/// empty a new one.
pub proof fn without_a_processor_the_central_list_serves(v: PoolView)
    ensures
        ({
            let w = v.after_acquire(None);
            let s = v.acquired(None);
            let n = v.central.len() as int;
            &&& n > 0 ==> s == v.central[n - 1] && w.central == v.central.take(n - 1) && w.vacant
                == v.vacant && w.nslots == v.nslots
            &&& n == 0 && v.vacant.len() > 0 ==> s == v.vacant[v.vacant.len() - 1] && w.vacant
                == v.vacant.take(v.vacant.len() - 1) && w.nslots == v.nslots && w.central
                == v.central
            &&& n == 0 && v.vacant.len() == 0 ==> s == v.nslots as usize && w.nslots == v.nslots + 1
                && w.central == v.central && w.vacant == v.vacant
            &&& w.locals == v.locals
        }),
{
}

/// A processor keeps what is released to it, up to 128.  Beyond that its 64 newest
/// first go to the central list, the newest first, as far as that has room for
/// 4096, and what finds no room is given up.
pub proof fn a_processor_keeps_what_it_releases(v: PoolView, p: usize, s: usize)
    requires
        p < v.locals.len(),
        v.central.len() <= 4096,
    ensures
        ({
            let w = v.after_release(Some(p), s);
            let own = v.locals[p as int];
            let n = own.len() as int;
            let room = if 4096 - v.central.len() < 64 {
                4096 - v.central.len()
            } else {
                64
            };
            &&& n < 128 ==> w.locals[p as int] == own.push(s) && w.central == v.central && w.vacant
                == v.vacant
            &&& n >= 128 ==> {
                &&& w.locals[p as int] == own.take(n - 64).push(s)
                &&& w.central.len() == v.central.len() + room
                &&& w.central.take(v.central.len() as int) == v.central
                &&& forall|i: int|
                    0 <= i < room ==> #[trigger] w.central[v.central.len() + i] == own[n - 1 - i]
                &&& w.vacant.len() == v.vacant.len() + (64 - room)
                &&& w.vacant.take(v.vacant.len() as int) == v.vacant
                &&& forall|i: int|
                    0 <= i < 64 - room ==> #[trigger] w.vacant[v.vacant.len() + i] == own[n - 1
                        - room - i]
            }
            &&& w.nslots == v.nslots && w.locals.len() == v.locals.len()
            &&& forall|q: int|
                0 <= q < v.locals.len() && q != p ==> #[trigger] w.locals[q] == v.locals[q]
        }),
{
    let w = v.after_release(Some(p), s);
    assert(w.vacant.take(v.vacant.len() as int) =~= v.vacant);
    assert(w.central.take(v.central.len() as int) =~= v.central);
}

/// What is released without a processor goes to the central list, up to 4096; then
/// it is given up.
pub proof fn without_a_processor_releases_are_central(v: PoolView, s: usize)
    requires
        v.central.len() <= 4096,
    ensures
        ({
            let w = v.after_release(None, s);
            &&& v.central.len() < 4096 ==> w.central == v.central.push(s) && w.vacant == v.vacant
            &&& v.central.len() == 4096 ==> w.central == v.central && w.vacant == v.vacant.push(s)
            &&& w.locals == v.locals && w.nslots == v.nslots
        }),
{
    let w = v.after_release(None, s);
    if v.central.len() < 4096 {
        assert(w.central =~= v.central.push(s));
        assert(w.vacant =~= v.vacant);
    } else {
        assert(w.central =~= v.central);
        assert(w.vacant =~= v.vacant.push(s));
    }
}

} // verus!
