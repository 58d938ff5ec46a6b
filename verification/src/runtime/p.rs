//! Processors and the two kinds of run queue.

use std::collections::VecDeque;

use vstd::prelude::*;

verus! {

/// Not running anything; may sit on the idle list.
pub const PIDLE: u32 = 0;

/// Held by an M that runs goroutines or the scheduler.
pub const PRUNNING: u32 = 1;

/// Its M is inside a system call; may be taken away.
pub const PSYSCALL: u32 = 2;

/// Stopped for a collection.
pub const PGCSTOP: u32 = 3;

/// Out of use.
pub const PDEAD: u32 = 4;

/// Slots of the ring of a processor.
pub const RUNQ_CAP: usize = 256;

/// The run queue that all processors share: first in, first out.
pub struct GlobalRunQueue {
    queue: VecDeque<usize>,
}

impl View for GlobalRunQueue {
    type V = Seq<usize>;

    closed spec fn view(&self) -> Seq<usize> {
        self.queue@
    }
}

impl GlobalRunQueue {
    /// The empty queue.
    pub fn new() -> (q: GlobalRunQueue)
        ensures
            q@ == Seq::<usize>::empty(),
    {
        GlobalRunQueue { queue: VecDeque::new() }
    }

    /// Appends the goroutines of `batch` in their order.
    pub fn push_batch(&mut self, batch: &[usize])
        ensures
            final(self)@ == old(self)@ + batch@,
    {
        let mut i: usize = 0;
        while i < batch.len()
            invariant
                i <= batch@.len(),
                self@ == old(self)@ + batch@.take(i as int),
            decreases batch@.len() - i,
        {
            self.queue.push_back(batch[i]);
            i = i + 1;
            assert(batch@.take(i as int) =~= batch@.take(i - 1).push(batch@[i - 1]));
        }
        assert(batch@.take(i as int) =~= batch@);
    }

    /// Takes the oldest goroutine out.
    pub fn pop(&mut self) -> (gp: Option<usize>)
        ensures
            old(self)@.len() == 0 ==> gp is None && final(self)@ == old(self)@,
            old(self)@.len() > 0 ==> gp == Some(old(self)@[0]) && final(self)@ == old(self)@.skip(
                1,
            ),
    {
        let gp = self.queue.pop_front();
        assert(old(self)@.len() > 0 ==> self@ =~= old(self)@.skip(1));
        gp
    }

    /// The number of goroutines that wait here.
    pub fn len(&self) -> (n: usize)
        ensures
            n == self@.len(),
    {
        self.queue.len()
    }
}

/// A processor: the right to run goroutines, with a run queue of its own.
pub struct P {
    /// Number of the processor.
    pub id: i32,
    /// One of the `P...` constants.
    pub status: u32,
    /// The M that runs this processor; none while the processor is idle.
    pub m: Option<usize>,
    /// Position of the oldest entry; runs on past the ring and wraps.
    pub runqhead: u32,
    /// Position after the newest entry.
    pub runqtail: u32,
    /// The slots of the ring.
    pub runq: Vec<usize>,
    /// A goroutine that runs before those on the ring.
    pub runnext: Option<usize>,
    /// Counts the goroutines that were started here.
    pub schedtick: u32,
    /// Counts system calls and their ends by force.
    pub syscalltick: u32,
}

/// What a processor holds.
#[verifier::ext_equal]
pub struct PView {
    pub id: i32,
    pub status: u32,
    pub m: Option<usize>,
    /// The goroutines on the ring, oldest first.
    pub ring: Seq<usize>,
    pub runnext: Option<usize>,
    pub schedtick: u32,
    pub syscalltick: u32,
}

/// The number of entries between two positions that wrap at 2^32.
pub open spec fn ring_len(head: u32, tail: u32) -> nat {
    if tail >= head {
        (tail - head) as nat
    } else {
        (tail - head + 0x1_0000_0000) as nat
    }
}

/// The entries of a ring, oldest first.
pub open spec fn ring_of(runq: Seq<usize>, head: u32, tail: u32) -> Seq<usize> {
    Seq::new(ring_len(head, tail), |i: int| runq[(head + i) % 256])
}

/// Gives back a wrapped position plus an offset, taken modulo the ring.
proof fn lemma_slot(head: u32, i: u32)
    ensures
        head.wrapping_add(i) as int % 256 == (head + i) % 256,
{
}

/// Appending at the tail appends to the entries.
proof fn lemma_ring_push(runq: Seq<usize>, head: u32, tail: u32, x: usize)
    requires
        runq.len() == 256,
        ring_len(head, tail) < 256,
    ensures
        ring_of(runq.update(tail as int % 256, x), head, tail.wrapping_add(1)) == ring_of(
            runq,
            head,
            tail,
        ).push(x),
{
    let n = ring_len(head, tail);
    let runq2 = runq.update(tail as int % 256, x);
    let tail2 = tail.wrapping_add(1);
    assert(ring_len(head, tail2) == n + 1);
    assert((head + n) % 256 == tail as int % 256);
    let a = ring_of(runq2, head, tail2);
    let b = ring_of(runq, head, tail).push(x);
    assert forall|i: int| 0 <= i < n + 1 implies a[i] == b[i] by {
        if i < n {
            assert((head + i) % 256 != (head + n) % 256);
        }
    }
    assert(a =~= b);
}

/// Moving the head on drops the oldest entries.
proof fn lemma_ring_skip(runq: Seq<usize>, head: u32, tail: u32, n: u32)
    requires
        runq.len() == 256,
        ring_len(head, tail) <= 256,
        n <= ring_len(head, tail),
    ensures
        ring_of(runq, head.wrapping_add(n), tail) == ring_of(runq, head, tail).skip(n as int),
        ring_len(head.wrapping_add(n), tail) == ring_len(head, tail) - n,
{
    let head2 = head.wrapping_add(n);
    assert(ring_len(head2, tail) == ring_len(head, tail) - n);
    let a = ring_of(runq, head2, tail);
    let b = ring_of(runq, head, tail).skip(n as int);
    assert forall|i: int| 0 <= i < a.len() implies a[i] == b[i] by {
        assert((head2 + i) % 256 == (head + (n + i)) % 256);
    }
    assert(a =~= b);
}

impl PView {
    /// The goroutine of a `put` that does not end up in `runnext`.
    pub open spec fn displaced(self, gp: usize, next: bool) -> Option<usize> {
        if next {
            self.runnext
        } else {
            Some(gp)
        }
    }

    /// The processor after `gp` was put on it.  With `next` the goroutine takes
    /// the place of `runnext`, and the one that stood there moves to the ring.
    /// A full ring first sheds its older half.
    pub open spec fn put(self, gp: usize, next: bool) -> PView {
        let runnext = if next {
            Some(gp)
        } else {
            self.runnext
        };
        match self.displaced(gp, next) {
            None => PView { runnext, ..self },
            Some(d) => if self.ring.len() < 256 {
                PView { runnext, ring: self.ring.push(d), ..self }
            } else {
                PView { runnext, ring: self.ring.skip(128), ..self }
            },
        }
    }

    /// What a `put` sheds to the global queue.
    pub open spec fn put_spill(self, gp: usize, next: bool) -> Seq<usize> {
        match self.displaced(gp, next) {
            Some(d) if self.ring.len() >= 256 => self.ring.take(128).push(d),
            _ => Seq::empty(),
        }
    }

    /// The goroutine that runs next: `runnext`, or else the oldest on the ring.
    pub open spec fn peek(self) -> Option<usize> {
        if self.runnext is Some {
            self.runnext
        } else if self.ring.len() > 0 {
            Some(self.ring[0])
        } else {
            None
        }
    }

    /// The processor without the goroutine that runs next.
    pub open spec fn got(self) -> PView {
        if self.runnext is Some {
            PView { runnext: None, ..self }
        } else if self.ring.len() > 0 {
            PView { ring: self.ring.skip(1), ..self }
        } else {
            self
        }
    }

    /// What a thief takes: the older half of the ring, rounded up; from an empty
    /// ring `runnext`, if that is allowed.
    pub open spec fn loot(self, steal_run_next: bool) -> Seq<usize> {
        if self.ring.len() > 0 {
            self.ring.take((self.ring.len() - self.ring.len() / 2) as int)
        } else if steal_run_next && self.runnext is Some {
            seq![self.runnext->0]
        } else {
            Seq::empty()
        }
    }

    /// The processor after a theft.
    pub open spec fn robbed(self, steal_run_next: bool) -> PView {
        if self.ring.len() > 0 {
            PView { ring: self.ring.skip((self.ring.len() - self.ring.len() / 2) as int), ..self }
        } else if steal_run_next {
            PView { runnext: None, ..self }
        } else {
            self
        }
    }

    /// The thief after it has put all of its loot but the last on its ring.
    pub open spec fn enriched(self, loot: Seq<usize>) -> PView {
        if loot.len() == 0 {
            self
        } else {
            PView { ring: self.ring + loot.drop_last(), ..self }
        }
    }

    /// The goroutine that a thief runs at once: the last of its loot.
    pub open spec fn prize(loot: Seq<usize>) -> Option<usize> {
        if loot.len() == 0 {
            None
        } else {
            Some(loot.last())
        }
    }

    /// The goroutines that wait on the processor.
    pub open spec fn size(self) -> nat {
        self.ring.len() + (if self.runnext is Some {
            1nat
        } else {
            0nat
        })
    }

    /// How often `g` waits on the processor.
    pub open spec fn count(self, g: usize) -> nat {
        self.ring.to_multiset().count(g) + (if self.runnext == Some(g) {
            1nat
        } else {
            0nat
        })
    }

    /// A processor that was just made.
    pub open spec fn fresh(id: i32) -> PView {
        PView {
            id,
            status: PIDLE,
            m: None,
            ring: Seq::empty(),
            runnext: None,
            schedtick: 0,
            syscalltick: 0,
        }
    }
}

impl View for P {
    type V = PView;

    open spec fn view(&self) -> PView {
        PView {
            id: self.id,
            status: self.status,
            m: self.m,
            ring: ring_of(self.runq@, self.runqhead, self.runqtail),
            runnext: self.runnext,
            schedtick: self.schedtick,
            syscalltick: self.syscalltick,
        }
    }
}

impl P {
    /// The ring has its slots and no more entries than slots.
    pub open spec fn wf(self) -> bool {
        &&& self.runq@.len() == 256
        &&& ring_len(self.runqhead, self.runqtail) <= 256
    }

    /// Makes an idle processor with empty queues.
    pub fn new(id: i32) -> (p: P)
        ensures
            p.wf(),
            p@ == PView::fresh(id),
            p.runqhead == 0,
            p.runqtail == 0,
    {
        let mut runq: Vec<usize> = Vec::with_capacity(RUNQ_CAP);
        let mut i: usize = 0;
        while i < RUNQ_CAP
            invariant
                i <= RUNQ_CAP,
                runq@.len() == i,
            decreases RUNQ_CAP - i,
        {
            runq.push(0);
            i = i + 1;
        }
        let p = P {
            id,
            status: PIDLE,
            m: None,
            runqhead: 0,
            runqtail: 0,
            runq,
            runnext: None,
            schedtick: 0,
            syscalltick: 0,
        };
        assert(p@.ring =~= Seq::<usize>::empty());
        assert(p@ =~= PView::fresh(id));
        p
    }

    /// Puts a goroutine on this processor.
    ///
    /// With `next` it becomes the one to run next and the former one goes to
    /// the end of the ring; otherwise it goes to the end of the ring itself.
    /// A full ring sends its older half and the newcomer to the global queue.
    pub fn runqput(&mut self, gp: usize, next: bool, global_q: &mut GlobalRunQueue)
        requires
            old(self).wf(),
        ensures
            final(self).wf(),
            final(self)@ == old(self)@.put(gp, next),
            final(global_q)@ == old(global_q)@ + old(self)@.put_spill(gp, next),
    {
        let mut gp: usize = gp;
        if next {
            let displaced = self.runnext;
            self.runnext = Some(gp);
            match displaced {
                None => {
                    assert(self@ =~= old(self)@.put(gp, next));
                    assert(global_q@ =~= old(global_q)@ + old(self)@.put_spill(gp, next));
                    return;
                },
                Some(d) => {
                    gp = d;
                },
            }
        }
        let h: u32 = self.runqhead;
        let t: u32 = self.runqtail;
        if t.wrapping_sub(h) < 256 {
            proof {
                lemma_ring_push(self.runq@, h, t, gp);
            }
            self.runq[(t as usize) % RUNQ_CAP] = gp;
            self.runqtail = t.wrapping_add(1);
            assert(global_q@ =~= old(global_q)@ + Seq::<usize>::empty());
            return;
        }
        self.runqputslow(gp, global_q);
    }

    /// Sheds the older half of the full ring, and `gp` behind it, to the global
    /// queue.
    fn runqputslow(&mut self, gp: usize, global_q: &mut GlobalRunQueue)
        requires
            old(self).wf(),
            old(self)@.ring.len() == 256,
        ensures
            final(self).wf(),
            final(self)@ == (PView { ring: old(self)@.ring.skip(128), ..old(self)@ }),
            final(global_q)@ == old(global_q)@ + old(self)@.ring.take(128).push(gp),
    {
        let h: u32 = self.runqhead;
        let n: u32 = self.runqtail.wrapping_sub(h) / 2;
        let mut batch: Vec<usize> = Vec::with_capacity(RUNQ_CAP / 2 + 1);
        let mut i: u32 = 0;
        while i < n
            invariant
                n == 128,
                i <= n,
                h == self.runqhead,
                self.wf(),
                self@.ring.len() == 256,
                batch@ == self@.ring.take(i as int),
            decreases n - i,
        {
            proof {
                lemma_slot(h, i);
            }
            batch.push(self.runq[(h.wrapping_add(i) as usize) % RUNQ_CAP]);
            i = i + 1;
            assert(batch@ =~= self@.ring.take(i as int));
        }
        batch.push(gp);
        proof {
            lemma_ring_skip(self.runq@, h, self.runqtail, n);
        }
        self.runqhead = h.wrapping_add(n);
        global_q.push_batch(batch.as_slice());
    }

    /// Takes the goroutine that runs next.  The flag tells that it came from
    /// `runnext` and so inherits the time slice of its predecessor.
    pub fn runqget(&mut self) -> (r: (Option<usize>, bool))
        requires
            old(self).wf(),
        ensures
            final(self).wf(),
            final(self)@ == old(self)@.got(),
            r.0 == old(self)@.peek(),
            r.1 == old(self)@.runnext is Some,
    {
        match self.runnext {
            Some(next) => {
                self.runnext = None;
                (Some(next), true)
            },
            None => {
                let h: u32 = self.runqhead;
                let t: u32 = self.runqtail;
                if t == h {
                    return (None, false);
                }
                let gp: usize = self.runq[(h as usize) % RUNQ_CAP];
                proof {
                    lemma_ring_skip(self.runq@, h, t, 1);
                    assert(self@.ring[0] == gp);
                }
                self.runqhead = h.wrapping_add(1);
                (Some(gp), false)
            },
        }
    }

    /// Hands out what a thief may take.
    pub fn runqgrab(&mut self, steal_run_next: bool) -> (batch: Vec<usize>)
        requires
            old(self).wf(),
        ensures
            final(self).wf(),
            final(self)@ == old(self)@.robbed(steal_run_next),
            batch@ == old(self)@.loot(steal_run_next),
    {
        let h: u32 = self.runqhead;
        let t: u32 = self.runqtail;
        let full: u32 = t.wrapping_sub(h);
        let n: u32 = full - full / 2;
        let mut batch: Vec<usize> = Vec::new();
        if n == 0 {
            if steal_run_next {
                if let Some(next) = self.runnext {
                    self.runnext = None;
                    batch.push(next);
                }
            }
            assert(batch@ =~= old(self)@.loot(steal_run_next));
            return batch;
        }
        let mut i: u32 = 0;
        while i < n
            invariant
                i <= n <= self@.ring.len(),
                h == self.runqhead,
                self.wf(),
                batch@ == self@.ring.take(i as int),
            decreases n - i,
        {
            proof {
                lemma_slot(h, i);
            }
            batch.push(self.runq[(h.wrapping_add(i) as usize) % RUNQ_CAP]);
            i = i + 1;
            assert(batch@ =~= self@.ring.take(i as int));
        }
        proof {
            lemma_ring_skip(self.runq@, h, t, n);
        }
        self.runqhead = h.wrapping_add(n);
        batch
    }

    /// Puts stolen goroutines on the ring, all but the last, which is returned.
    pub fn runqaccept(&mut self, batch: &Vec<usize>) -> (gp: Option<usize>)
        requires
            old(self).wf(),
            old(self)@.ring.len() + batch@.len() <= 256,
        ensures
            final(self).wf(),
            final(self)@ == old(self)@.enriched(batch@),
            gp == PView::prize(batch@),
    {
        if batch.len() == 0 {
            return None;
        }
        let n: usize = batch.len() - 1;
        let mut i: usize = 0;
        while i < n
            invariant
                i <= n == batch@.len() - 1,
                self.wf(),
                old(self)@.ring.len() + batch@.len() <= 256,
                self@ == (PView { ring: old(self)@.ring + batch@.take(i as int), ..old(self)@ }),
            decreases n - i,
        {
            let t: u32 = self.runqtail;
            proof {
                assert(self@.ring.len() == old(self)@.ring.len() + i);
                lemma_ring_push(self.runq@, self.runqhead, t, batch@[i as int]);
            }
            self.runq[(t as usize) % RUNQ_CAP] = batch[i];
            self.runqtail = t.wrapping_add(1);
            i = i + 1;
            assert(batch@.take(i as int) =~= batch@.take(i - 1).push(batch@[i - 1]));
            assert(self@.ring =~= old(self)@.ring + batch@.take(i as int));
        }
        assert(batch@.take(n as int) =~= batch@.drop_last());
        Some(batch[n])
    }

    /// Steals from `victim` and returns a goroutine to run.
    pub fn runqsteal(&mut self, victim: &mut P, steal_run_next: bool) -> (gp: Option<usize>)
        requires
            old(self).wf(),
            old(victim).wf(),
            old(self)@.ring.len() + old(victim)@.loot(steal_run_next).len() <= 256,
        ensures
            final(self).wf(),
            final(victim).wf(),
            final(victim)@ == old(victim)@.robbed(steal_run_next),
            final(self)@ == old(self)@.enriched(old(victim)@.loot(steal_run_next)),
            gp == PView::prize(old(victim)@.loot(steal_run_next)),
    {
        let batch = victim.runqgrab(steal_run_next);
        self.runqaccept(&batch)
    }

    /// The number of goroutines that wait here.
    pub fn runq_size(&self) -> (n: u32)
        requires
            self.wf(),
        ensures
            n == self@.size(),
    {
        let ring: u32 = self.runqtail.wrapping_sub(self.runqhead);
        let rn: u32 = if self.runnext.is_some() {
            1
        } else {
            0
        };
        ring + rn
    }
}

/// Counting in a sequence that was cut in two.
pub proof fn lemma_count_split(s: Seq<usize>, n: int, g: usize)
    requires
        0 <= n <= s.len(),
    ensures
        s.to_multiset().count(g) == s.take(n).to_multiset().count(g) + s.skip(
            n,
        ).to_multiset().count(g),
{
    broadcast use vstd::seq_lib::group_to_multiset_ensures;

    assert(s =~= s.take(n) + s.skip(n));
    vstd::seq_lib::lemma_multiset_commutative(s.take(n), s.skip(n));
}

/// Counting in a sequence that grew by one.
pub proof fn lemma_count_push(s: Seq<usize>, x: usize, g: usize)
    ensures
        s.push(x).to_multiset().count(g) == s.to_multiset().count(g) + (if x == g {
            1nat
        } else {
            0nat
        }),
{
    broadcast use vstd::seq_lib::group_to_multiset_ensures;

}

/// Counting in two sequences put together.
pub proof fn lemma_count_add(a: Seq<usize>, b: Seq<usize>, g: usize)
    ensures
        (a + b).to_multiset().count(g) == a.to_multiset().count(g) + b.to_multiset().count(g),
{
    vstd::seq_lib::lemma_multiset_commutative(a, b);
}

/// Counting in the empty sequence.
pub proof fn lemma_count_empty(g: usize)
    ensures
        Seq::<usize>::empty().to_multiset().count(g) == 0,
{
    broadcast use vstd::seq_lib::group_to_multiset_ensures;

}

/// Counting on the ring of one.
pub proof fn lemma_count_one(x: usize, g: usize)
    ensures
        seq![x].to_multiset().count(g) == (if x == g {
            1nat
        } else {
            0nat
        }),
{
    lemma_count_empty(g);
    lemma_count_push(Seq::empty(), x, g);
    assert(seq![x] =~= Seq::<usize>::empty().push(x));
}

/// Putting a goroutine on a processor neither loses nor doubles any: the
/// processor and what it sheds hold what the processor held, and `gp` once more.
pub proof fn put_conserves(p: PView, gp: usize, next: bool, g: usize)
    ensures
        p.put(gp, next).count(g) + p.put_spill(gp, next).to_multiset().count(g) == p.count(g) + (
        if g == gp {
            1nat
        } else {
            0nat
        }),
{
    lemma_count_empty(g);
    match p.displaced(gp, next) {
        None => {},
        Some(d) => {
            if p.ring.len() < 256 {
                lemma_count_push(p.ring, d, g);
            } else {
                lemma_count_split(p.ring, 128, g);
                lemma_count_push(p.ring.take(128), d, g);
            }
        },
    }
}

/// Taking the next goroutine removes that one and no other.
pub proof fn get_conserves(p: PView, g: usize)
    ensures
        p.count(g) == p.got().count(g) + (if p.peek() == Some(g) {
            1nat
        } else {
            0nat
        }),
{
    if p.runnext is None && p.ring.len() > 0 {
        lemma_count_split(p.ring, 1, g);
        assert(p.ring.take(1) =~= seq![p.ring[0]]);
        lemma_count_one(p.ring[0], g);
    }
}

/// A theft moves goroutines and creates or loses none: what the two processors
/// hold afterwards, with the one that the thief runs, is what they held before.
pub proof fn steal_conserves(thief: PView, victim: PView, steal_run_next: bool, g: usize)
    ensures
        thief.count(g) + victim.count(g) == thief.enriched(victim.loot(steal_run_next)).count(g)
            + victim.robbed(steal_run_next).count(g) + (if PView::prize(
            victim.loot(steal_run_next),
        ) == Some(g) {
            1nat
        } else {
            0nat
        }),
{
    let loot = victim.loot(steal_run_next);
    if loot.len() > 0 {
        assert(loot =~= loot.drop_last().push(loot.last()));
        lemma_count_push(loot.drop_last(), loot.last(), g);
        lemma_count_add(thief.ring, loot.drop_last(), g);
        if victim.ring.len() > 0 {
            lemma_count_split(victim.ring, loot.len() as int, g);
        } else {
            lemma_count_one(victim.runnext->0, g);
        }
    }
}

/// A thief takes half of the ring, rounded up, oldest first, and leaves the
/// rest in its order.
pub proof fn steal_takes_half(victim: PView, steal_run_next: bool)
    requires
        victim.ring.len() > 0,
    ensures
        victim.loot(steal_run_next) + victim.robbed(steal_run_next).ring == victim.ring,
        victim.loot(steal_run_next).len() == (victim.ring.len() + 1) / 2,
        victim.robbed(steal_run_next).runnext == victim.runnext,
{
    assert(victim.loot(steal_run_next) + victim.robbed(steal_run_next).ring =~= victim.ring);
}

/// A theft fails only where there is nothing to take.
pub proof fn steal_fails_only_on_nothing(victim: PView, steal_run_next: bool)
    ensures
        PView::prize(victim.loot(steal_run_next)) is None <==> victim.ring.len() == 0 && (
        steal_run_next ==> victim.runnext is None),
{
}

/// A goroutine put with `next` is the next to run.
pub proof fn put_next_runs_next(p: PView, gp: usize)
    ensures
        p.put(gp, true).peek() == Some(gp),
{
}

/// The ring is first in, first out: with room on it and nothing in `runnext`, a
/// goroutine put on a processor runs after all those that were there.
pub proof fn put_get_fifo(p: PView, gp: usize)
    requires
        p.ring.len() < 256,
        p.runnext is None,
    ensures
        p.ring.len() == 0 ==> p.put(gp, false).peek() == Some(gp),
        p.ring.len() > 0 ==> p.put(gp, false).peek() == p.peek() && p.put(gp, false).got()
            == p.got().put(gp, false),
{
    if p.ring.len() > 0 {
        assert(p.ring.push(gp).skip(1) =~= p.ring.skip(1).push(gp));
    }
}

/// A full ring sheds the older half and the newcomer, oldest first.
pub proof fn overflow_sheds_half(p: PView, gp: usize)
    requires
        p.ring.len() == 256,
    ensures
        p.put_spill(gp, false).len() == 129,
        p.put(gp, false).ring.len() == 128,
        p.put_spill(gp, false).drop_last() + p.put(gp, false).ring == p.ring,
        p.put_spill(gp, false).last() == gp,
{
    assert(p.put_spill(gp, false).drop_last() + p.put(gp, false).ring =~= p.ring);
}

/// A goroutine that is put before another comes to the end of the ring: it is not
/// lost, and it runs after those that were there.
pub proof fn the_displaced_goes_to_the_back(p: PView, gp: usize)
    requires
        p.ring.len() < 256,
    ensures
        p.put(gp, true).runnext == Some(gp),
        p.runnext is Some ==> p.put(gp, true).ring == p.ring.push(p.runnext->0),
        p.runnext is None ==> p.put(gp, true).ring == p.ring,
        p.put(gp, false).runnext == p.runnext,
        p.put(gp, false).ring == p.ring.push(gp),
        p.put_spill(gp, true).len() == 0,
        p.put_spill(gp, false).len() == 0,
{
}

/// A full ring that has to take the goroutine that was to run next sheds its older
/// half, and behind it that goroutine.
pub proof fn a_full_ring_sheds_the_displaced(p: PView, gp: usize)
    requires
        p.ring.len() == 256,
        p.runnext is Some,
    ensures
        p.put(gp, true).runnext == Some(gp),
        p.put_spill(gp, true).len() == 129,
        p.put_spill(gp, true).last() == p.runnext->0,
        p.put_spill(gp, true).drop_last() + p.put(gp, true).ring == p.ring,
{
    assert(p.put_spill(gp, true).drop_last() + p.put(gp, true).ring =~= p.ring);
}

/// What runs next on a processor is what was put before all others, or else what
/// has waited longest; and taking it leaves the rest in its order.
pub proof fn the_longest_waiting_runs_next(p: PView)
    ensures
        p.runnext is Some ==> p.peek() == p.runnext && p.got().runnext is None && p.got().ring
            == p.ring,
        p.runnext is None && p.ring.len() > 0 ==> p.peek() == Some(p.ring[0]) && p.got().ring
            == p.ring.skip(1) && p.got().runnext is None,
        p.runnext is None && p.ring.len() == 0 ==> p.peek() is None && p.got() == p,
        p.size() == 0 <==> p.peek() is None,
        p.size() > 0 ==> p.got().size() == p.size() - 1,
{
}

/// A thief puts what it took, but for the last, which it runs, behind what it had,
/// in the order in which it waited; from an empty ring it takes what was to run
/// next, if it may.
pub proof fn a_thief_keeps_the_order(thief: PView, victim: PView, steal_run_next: bool)
    ensures
        ({
            let loot = victim.loot(steal_run_next);
            let n = (victim.ring.len() + 1) / 2;
            &&& victim.ring.len() > 0 ==> PView::prize(loot) == Some(victim.ring[n - 1])
                && thief.enriched(loot).ring == thief.ring + victim.ring.take(n - 1)
            &&& victim.ring.len() == 0 && victim.runnext is Some && steal_run_next ==> PView::prize(
                loot,
            ) == victim.runnext && victim.robbed(true).runnext is None && thief.enriched(loot).ring
                == thief.ring
            &&& victim.ring.len() == 0 && !steal_run_next ==> PView::prize(loot) is None
                && victim.robbed(false) == victim && thief.enriched(loot) == thief
            &&& thief.enriched(loot).runnext == thief.runnext
        }),
{
    let loot = victim.loot(steal_run_next);
    if loot.len() > 0 {
        if victim.ring.len() > 0 {
            let n = (victim.ring.len() + 1) / 2;
            assert(loot.drop_last() =~= victim.ring.take(n - 1));
        } else {
            assert(loot.drop_last() =~= Seq::<usize>::empty());
            assert(thief.ring + loot.drop_last() =~= thief.ring);
        }
    }
}

/// Queueing, taking and stealing change the queue of a processor and nothing else
/// about it.
pub proof fn queueing_changes_only_the_queue(
    p: PView,
    gp: usize,
    next: bool,
    loot: Seq<usize>,
    q: PView,
)
    requires
        q == p.put(gp, next) || q == p.got() || q == p.robbed(next) || q == p.enriched(loot),
    ensures
        q.id == p.id,
        q.status == p.status,
        q.m == p.m,
        q.schedtick == p.schedtick,
        q.syscalltick == p.syscalltick,
{
}

/// The number of entries on a ring is that from its head to its tail, also where
/// the positions have wrapped; the first entry lies at the head, each next one a
/// slot further on, and after the last slot comes the first.
pub proof fn a_ring_runs_from_head_to_tail(runq: Seq<usize>, head: u32, n: u32, i: u32)
    requires
        runq.len() == 256,
        n <= 256,
        i < n,
    ensures
        ring_of(runq, head, head.wrapping_add(n)).len() == n,
        ring_of(runq, head, head.wrapping_add(n))[i as int] == runq[head.wrapping_add(i) as int
            % 256],
{
    lemma_slot(head, i);
}

/// A new processor is idle, belongs to no thread, has counted nothing, and nothing
/// waits on it.
pub proof fn a_new_processor_is_empty(id: i32)
    ensures
        ({
            let p = PView::fresh(id);
            &&& p.id == id && p.status == 0 && p.m is None
            &&& p.ring.len() == 0 && p.runnext is None && p.size() == 0 && p.peek() is None
            &&& p.schedtick == 0 && p.syscalltick == 0
        }),
{
}

/// A full ring that has to take nothing sheds nothing.
pub proof fn nothing_displaced_is_nothing_shed(p: PView, gp: usize)
    requires
        p.runnext is None,
    ensures
        p.put(gp, true) == (PView { runnext: Some(gp), ..p }),
        p.put_spill(gp, true).len() == 0,
{
}

/// What waits on a processor is counted: on its ring, and what runs next.
pub proof fn a_processor_counts_what_waits(p: PView)
    ensures
        p.runnext is Some ==> p.size() == p.ring.len() + 1,
        p.runnext is None ==> p.size() == p.ring.len(),
{
}

} // verus!
