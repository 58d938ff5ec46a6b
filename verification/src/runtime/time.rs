//! Sleeping goroutines: timers, the shards that hold them, and their firing.

use std::time::{Duration, Instant};

use vstd::multiset::Multiset;
use vstd::prelude::*;

use super::g::{readgstatus, WaitReason, G, GDEAD, GWAITING};
use super::park::Ready;
use super::sched::{Rt, RtView};

verus! {

/// Number of shards; each processor uses the one of its number.
pub const TIMER_SHARDS: usize = 64;

/// The time of a timer that does not exist.
pub const NO_TIMER: u64 = 0xffff_ffff_ffff_ffff;

/// A goroutine that was not yet asleep when its timer fired is tried again
/// after this many nanoseconds.
pub const RETRY_NS: u64 = 5_000_000;

/// How long the timer thread waits when there is no timer, in nanoseconds.
pub const IDLE_WAIT_NS: u64 = 1_000_000_000;

/// A goroutine that is to be woken at a time.
#[derive(Copy, Clone, Debug, PartialEq, Eq, Structural)]
pub struct TimerEntry {
    /// The time, in nanoseconds.
    pub when: u64,
    /// The goroutine.
    pub gp: usize,
}

/// The position above position `i` in a heap.
pub open spec fn parent(i: int) -> int {
    (i - 1) / 2
}

/// The entry at `i` is not due before the one above it.
pub open spec fn edge(v: Seq<TimerEntry>, i: int) -> bool {
    v[parent(i)].when <= v[i].when
}

/// No entry is due before the one above it.
pub open spec fn heap_ordered(v: Seq<TimerEntry>) -> bool {
    forall|i: int| 0 < i < v.len() ==> #[trigger] edge(v, i)
}

/// The entry at the top of a heap is due first.
proof fn lemma_top_is_first(v: Seq<TimerEntry>, i: int)
    requires
        heap_ordered(v),
        0 <= i < v.len(),
    ensures
        v[0].when <= v[i].when,
    decreases i,
{
    if i > 0 {
        assert(edge(v, i));
        lemma_top_is_first(v, parent(i));
    }
}

/// Timers, of which the one that is due first can be had quickly.
pub struct TimerHeap {
    entries: Vec<TimerEntry>,
}

impl View for TimerHeap {
    type V = Multiset<TimerEntry>;

    closed spec fn view(&self) -> Multiset<TimerEntry> {
        self.entries@.to_multiset()
    }
}

/// The time at which the first of some timers is due.
pub open spec fn is_first(when: u64, timers: Multiset<TimerEntry>) -> bool {
    &&& forall|e: TimerEntry| #[trigger] timers.contains(e) ==> when <= e.when
    &&& timers.len() == 0 ==> when == NO_TIMER
    &&& timers.len() > 0 ==> exists|e: TimerEntry| #[trigger] timers.contains(e) && e.when == when
}

impl TimerHeap {
    /// The entries are in the order of a heap.
    pub closed spec fn wf(self) -> bool {
        heap_ordered(self.entries@)
    }

    /// No timers.
    pub fn new() -> (h: TimerHeap)
        ensures
            h.wf(),
            h@ == Multiset::<TimerEntry>::empty(),
    {
        let h = TimerHeap { entries: Vec::new() };
        proof {
            broadcast use vstd::seq_lib::group_to_multiset_ensures;

            assert(h@ =~= Multiset::<TimerEntry>::empty());
        }
        h
    }

    /// The number of timers.
    pub fn len(&self) -> (n: usize)
        ensures
            n == self@.len(),
    {
        proof {
            broadcast use vstd::seq_lib::group_to_multiset_ensures;

        }
        self.entries.len()
    }

    /// The time at which the first timer is due.
    pub fn first_when(&self) -> (when: u64)
        requires
            self.wf(),
        ensures
            is_first(when, self@),
    {
        proof {
            broadcast use vstd::seq_lib::group_to_multiset_ensures;

            assert forall|e: TimerEntry| #[trigger] self@.contains(e) implies self.entries@.len()
                > 0 && self.entries@[0].when <= e.when by {
                assert(self.entries@.contains(e));
                let i = self.entries@.index_of(e);
                lemma_top_is_first(self.entries@, i);
            }
            if self.entries@.len() > 0 {
                assert(self.entries@.contains(self.entries@[0]));
                assert(self@.contains(self.entries@[0]));
            }
        }
        if self.entries.len() == 0 {
            NO_TIMER
        } else {
            self.entries[0].when
        }
    }

    /// Exchanges two entries.
    fn swap(&mut self, i: usize, j: usize)
        requires
            i < old(self).entries@.len(),
            j < old(self).entries@.len(),
        ensures
            final(self).entries@ == old(self).entries@.update(
                i as int,
                old(self).entries@[j as int],
            ).update(j as int, old(self).entries@[i as int]),
            final(self)@ == old(self)@,
    {
        let a: TimerEntry = self.entries[i];
        let b: TimerEntry = self.entries[j];
        self.entries[i] = b;
        self.entries[j] = a;
        proof {
            let s = old(self).entries@;
            vstd::seq_lib::to_multiset_update(s, i as int, b);
            vstd::seq_lib::to_multiset_update(s.update(i as int, b), j as int, a);
            broadcast use vstd::seq_lib::group_to_multiset_ensures;

            assert(s.contains(a) && s.contains(b));
            assert(self@ =~= old(self)@);
        }
    }

    /// Adds a timer.
    pub fn push(&mut self, e: TimerEntry)
        requires
            old(self).wf(),
        ensures
            final(self).wf(),
            final(self)@ == old(self)@.insert(e),
    {
        self.entries.push(e);
        proof {
            broadcast use vstd::seq_lib::group_to_multiset_ensures;

            assert(self@ =~= old(self)@.insert(e));
        }
        let mut i: usize = self.entries.len() - 1;
        proof {
            assert forall|j: int| 0 < j < self.entries@.len() && j != i implies #[trigger] edge(
                self.entries@,
                j,
            ) by {
                assert(edge(old(self).entries@, j));
            }
        }
        while i > 0
            invariant_except_break
                i < self.entries@.len(),
                self@ == old(self)@.insert(e),
                forall|j: int|
                    0 < j < self.entries@.len() && j != i ==> #[trigger] edge(self.entries@, j),
                forall|c: int|
                    i > 0 && 0 < c < self.entries@.len() && #[trigger] parent(c) == i
                        ==> self.entries@[parent(i as int)].when <= self.entries@[c].when,
            ensures
                heap_ordered(self.entries@),
                self@ == old(self)@.insert(e),
            decreases i,
        {
            let p: usize = (i - 1) / 2;
            assert(p == parent(i as int));
            if self.entries[p].when <= self.entries[i].when {
                assert(edge(self.entries@, i as int));
                break ;
            }
            let ghost v = self.entries@;
            self.swap(i, p);
            proof {
                let w = self.entries@;
                assert forall|j: int| 0 < j < w.len() && j != p implies #[trigger] edge(w, j) by {
                    if j != i {
                        assert(edge(v, j));
                        if parent(j) == i {
                            assert(v[parent(i as int)].when <= v[j].when);
                        }
                    }
                }
                assert forall|c: int|
                    p > 0 && 0 < c < w.len() && #[trigger] parent(c) == p implies w[parent(
                    p as int,
                )].when <= w[c].when by {
                    assert(edge(v, p as int));
                    if c != i {
                        assert(edge(v, c));
                    }
                }
            }
            i = p;
        }
    }

    /// Takes a timer that is due first.
    pub fn pop(&mut self) -> (r: Option<TimerEntry>)
        requires
            old(self).wf(),
        ensures
            final(self).wf(),
            r is None <==> old(self)@.len() == 0,
            r is None ==> final(self)@ == old(self)@,
            r is Some ==> old(self)@.contains(r->0) && is_first(r->0.when, old(self)@)
                && final(self)@ == old(self)@.remove(r->0),
    {
        let ghost s = self.entries@;
        if self.entries.len() == 0 {
            proof {
                broadcast use vstd::seq_lib::group_to_multiset_ensures;

            }
            return None;
        }
        let e: TimerEntry = self.entries.swap_remove(0);
        proof {
            broadcast use vstd::seq_lib::group_to_multiset_ensures;

            let n = s.len() - 1;
            let u = s.update(0, s.last());
            vstd::seq_lib::to_multiset_update(s, 0, s.last());
            assert(u.drop_last() =~= u.remove(n));
            vstd::seq_lib::to_multiset_remove(u, n);
            assert(u[n] == s.last());
            assert(s.contains(s[0]) && s.contains(s.last()));
            assert(self@ =~= old(self)@.remove(e));
            assert(is_first(e.when, old(self)@)) by {
                lemma_top_entry_is_first(e, old(self)@, s);
            }
        }
        let len: usize = self.entries.len();
        let mut i: usize = 0;
        proof {
            assert forall|j: int| 0 < j < len && parent(j) != 0 implies #[trigger] edge(
                self.entries@,
                j,
            ) by {
                assert(edge(s, j));
            }
        }
        loop
            invariant_except_break
                len == self.entries@.len(),
                len < usize::MAX,
                i < len || i == 0,
                self@ == old(self)@.remove(e),
                forall|j: int|
                    0 < j < len && parent(j) != i ==> #[trigger] edge(self.entries@, j),
                forall|c: int|
                    i > 0 && 0 < c < len && #[trigger] parent(c) == i ==> self.entries@[parent(
                        i as int,
                    )].when <= self.entries@[c].when,
            ensures
                heap_ordered(self.entries@),
                self@ == old(self)@.remove(e),
            decreases len - i,
        {
            if i >= len || i >= len - i || i + 1 >= len - i {
                assert forall|j: int| 0 < j < len implies #[trigger] edge(self.entries@, j) by {}
                break ;
            }
            let mut m: usize = i + i + 1;
            if m + 1 < len {
                if self.entries[m + 1].when < self.entries[m].when {
                    m = m + 1;
                }
            }
            if self.entries[i].when <= self.entries[m].when {
                assert forall|j: int| 0 < j < len implies #[trigger] edge(self.entries@, j) by {
                    if parent(j) == i {
                        assert(j == 2 * i + 1 || j == 2 * i + 2);
                    }
                }
                break ;
            }
            let ghost v = self.entries@;
            assert(parent(m as int) == i);
            self.swap(i, m);
            proof {
                let w = self.entries@;
                assert forall|j: int| 0 < j < len && parent(j) != m implies #[trigger] edge(w, j) by {
                    if parent(j) == i {
                        assert(j == 2 * i + 1 || j == 2 * i + 2);
                    } else {
                        assert(edge(v, j));
                        if j == i {
                            assert(parent(m as int) == i);
                            assert(v[parent(i as int)].when <= v[m as int].when);
                        }
                    }
                }
                assert forall|c: int|
                    m > 0 && 0 < c < len && #[trigger] parent(c) == m implies w[parent(
                    m as int,
                )].when <= w[c].when by {
                    assert(edge(v, c));
                }
            }
            i = m;
        }
        Some(e)
    }

    /// Takes every timer that is due at `now`, those that are due earlier first.
    pub fn pop_due(&mut self, now: u64) -> (due: Vec<TimerEntry>)
        requires
            old(self).wf(),
        ensures
            final(self).wf(),
            is_due(due@, final(self)@, old(self)@, now),
    {
        let mut due: Vec<TimerEntry> = Vec::new();
        proof {
            broadcast use vstd::seq_lib::group_to_multiset_ensures;

            assert(due@.to_multiset() =~= Multiset::<TimerEntry>::empty());
            assert(due@.to_multiset().add(self@) =~= self@);
        }
        while self.len() > 0 && self.first_when() <= now
            invariant
                self.wf(),
                due@.to_multiset().add(self@) == old(self)@,
                forall|i: int, j: int|
                    0 <= i <= j < due@.len() ==> (#[trigger] due@[i]).when <= (
                    #[trigger] due@[j]).when,
                forall|i: int| 0 <= i < due@.len() ==> (#[trigger] due@[i]).when <= now,
                forall|i: int, e: TimerEntry|
                    0 <= i < due@.len() && #[trigger] self@.contains(e) ==> (
                    #[trigger] due@[i]).when <= e.when,
            decreases self@.len(),
        {
            let ghost h = self@;
            if let Some(e) = self.pop() {
                proof {
                    broadcast use vstd::seq_lib::group_to_multiset_ensures;

                    let x = choose|x: TimerEntry| #[trigger] h.contains(x) && x.when <= now;
                    assert(exists|x: TimerEntry| #[trigger] h.contains(x) && x.when <= now);
                    assert(e.when <= x.when);
                    assert(h.contains(e));
                    assert forall|y: TimerEntry| #[trigger] self@.contains(y) implies h.contains(
                        y,
                    ) by {}
                }
                let ghost d = due@;
                due.push(e);
                proof {
                    broadcast use vstd::seq_lib::group_to_multiset_ensures;

                    assert(due@.to_multiset() =~= d.to_multiset().insert(e));
                    assert(due@.to_multiset().add(self@) =~= d.to_multiset().add(h));
                }
            }
        }
        due
    }
}

/// The entry at the top of a heap has the first time.
proof fn lemma_top_entry_is_first(e: TimerEntry, timers: Multiset<TimerEntry>, s: Seq<TimerEntry>)
    requires
        timers == s.to_multiset(),
        s.len() > 0,
        e == s[0],
        heap_ordered(s),
    ensures
        is_first(e.when, timers),
{
    broadcast use vstd::seq_lib::group_to_multiset_ensures;

    assert forall|x: TimerEntry| #[trigger] timers.contains(x) implies e.when <= x.when by {
        assert(s.contains(x));
        lemma_top_is_first(s, s.index_of(x));
    }
    assert(s.contains(s[0]));
    assert(timers.contains(e));
}

/// `due` are the timers of `before` that are due at `now`, those that are due
/// earlier first; `after` are the others.
pub open spec fn is_due(
    due: Seq<TimerEntry>,
    after: Multiset<TimerEntry>,
    before: Multiset<TimerEntry>,
    now: u64,
) -> bool {
    &&& due.to_multiset().add(after) == before
    &&& forall|i: int| 0 <= i < due.len() ==> (#[trigger] due[i]).when <= now
    &&& forall|e: TimerEntry| #[trigger] after.contains(e) ==> e.when > now
    &&& forall|i: int, j: int|
        0 <= i <= j < due.len() ==> (#[trigger] due[i]).when <= (#[trigger] due[j]).when
}

/// The timers of some processors.
pub struct TimerShard {
    /// The timers.
    pub heap: TimerHeap,
    /// The time at which the first of them is due.
    pub earliest: u64,
}

impl TimerShard {
    /// The recorded time is right.
    pub open spec fn wf(self) -> bool {
        self.heap.wf() && is_first(self.earliest, self.heap@)
    }

    /// A shard without timers.
    pub fn new() -> (s: TimerShard)
        ensures
            s.wf(),
            s.heap@ == Multiset::<TimerEntry>::empty(),
            s.earliest == NO_TIMER,
    {
        TimerShard { heap: TimerHeap::new(), earliest: NO_TIMER }
    }

    /// Records anew when the first timer is due.
    pub fn refresh_earliest(&mut self)
        requires
            old(self).heap.wf(),
        ensures
            final(self).wf(),
            final(self).heap == old(self).heap,
    {
        self.earliest = self.heap.first_when();
    }

    /// Adds a timer.  Tells whether it is due before all others, so that the
    /// timer thread has to wake earlier.
    pub fn insert(&mut self, e: TimerEntry) -> (lowered: bool)
        requires
            old(self).wf(),
        ensures
            final(self).wf(),
            final(self).heap@ == old(self).heap@.insert(e),
            lowered == (old(self).earliest > e.when),
            final(self).earliest == (if lowered {
                e.when
            } else {
                old(self).earliest
            }),
    {
        let lowered: bool = self.earliest > e.when;
        self.heap.push(e);
        if lowered {
            self.earliest = e.when;
        }
        proof {
            let h = old(self).heap@;
            let k = self.heap@;
            assert(k.contains(e));
            assert forall|x: TimerEntry| #[trigger] k.contains(x) implies self.earliest
                <= x.when by {
                if x != e {
                    assert(h.contains(x));
                }
            }
            if !lowered && h.len() > 0 {
                let y = choose|y: TimerEntry| #[trigger] h.contains(y) && y.when == old(self).earliest;
                assert(k.contains(y));
            }
        }
        lowered
    }
}

/// The time at which a timer is tried again.
pub open spec fn retry_at(now: u64) -> u64 {
    if now + RETRY_NS <= u64::MAX {
        (now + RETRY_NS) as u64
    } else {
        u64::MAX
    }
}

/// What the firing of some timers has come to.
pub struct Fired {
    pub rt: RtView,
    /// Timers that are to be tried again.
    pub retry: Seq<TimerEntry>,
}

/// The firing of the first `n` of `due`.  A goroutine that is parked is made
/// ready; one that is not yet is tried again later; one that has ended is
/// forgotten.
pub open spec fn fired(rt: RtView, due: Seq<TimerEntry>, now: u64, n: nat) -> Fired
    decreases n,
{
    if n == 0 {
        Fired { rt, retry: Seq::empty() }
    } else {
        let f = fired(rt, due, now, (n - 1) as nat);
        let gp = due[n - 1].gp;
        let s = f.rt.gs[gp as int].status();
        if s == GWAITING {
            Fired { rt: f.rt.readied(None, gp), ..f }
        } else if s != GDEAD {
            Fired { retry: f.retry.push(TimerEntry { when: retry_at(now), gp }), ..f }
        } else {
            f
        }
    }
}

/// The rows behind some vectors.
pub open spec fn rows_of(v: Seq<Vec<TimerEntry>>) -> Seq<Seq<TimerEntry>> {
    Seq::new(v.len(), |i: int| v[i]@)
}

/// What the firing over several shards has come to.
pub struct Sweep {
    pub rt: RtView,
    pub retries: Seq<Seq<TimerEntry>>,
}

/// The firing of the first `n` shards, of which `dues[i]` are due.
pub open spec fn sweep(rt: RtView, dues: Seq<Seq<TimerEntry>>, now: u64, n: nat) -> Sweep
    decreases n,
{
    if n == 0 {
        Sweep { rt, retries: Seq::empty() }
    } else {
        let s = sweep(rt, dues, now, (n - 1) as nat);
        let f = fired(s.rt, dues[n - 1], now, dues[n - 1].len());
        Sweep { rt: f.rt, retries: s.retries.push(f.retry) }
    }
}

/// The goroutines behind some timers exist, and nobody is scanning them.
pub open spec fn timers_ok(timers: Multiset<TimerEntry>, gs: Seq<G>) -> bool {
    forall|e: TimerEntry| #[trigger]
        timers.contains(e) ==> e.gp < gs.len() && !gs[e.gp as int].scanning()
}

/// The same of timers in a row.
pub open spec fn row_ok(due: Seq<TimerEntry>, gs: Seq<G>) -> bool {
    forall|i: int|
        0 <= i < due.len() ==> (#[trigger] due[i]).gp < gs.len() && !gs[due[i].gp as int].scanning()
}

/// Firing one timer keeps the number of objects and starts no scan.
proof fn lemma_fired_step(v: RtView, gp: usize)
    requires
        v.names(),
        gp < v.gs.len(),
    ensures
        v.readied(None, gp).gs.len() == v.gs.len(),
        forall|g: int|
            0 <= g < v.gs.len() && !v.gs[g].scanning() ==> !(
            #[trigger] v.readied(None, gp).gs[g]).scanning(),
{
    super::park::ready_touches_only_its_goroutine(v, None, gp);
    super::g::scan_flag_hides_nothing(super::g::GRUNNABLE);
}

impl TimerShard {
    /// Fires timers that were due, in order, and keeps those that are to be
    /// tried again.
    fn fire(&mut self, rt: &mut Rt, due: &Vec<TimerEntry>, now: u64)
        requires
            old(self).heap.wf(),
            old(rt).wf(),
            row_ok(due@, old(rt)@.gs),
        ensures
            final(self).heap.wf(),
            final(rt).wf(),
            final(rt)@ == fired(old(rt)@, due@, now, due@.len()).rt,
            final(self).heap@ == old(self).heap@.add(
                fired(old(rt)@, due@, now, due@.len()).retry.to_multiset(),
            ),
            final(rt)@.gs.len() == old(rt)@.gs.len(),
            forall|g: int|
                0 <= g < old(rt)@.gs.len() && !old(rt)@.gs[g].scanning() ==> !(
                #[trigger] final(rt)@.gs[g]).scanning(),
    {
        let retry_when: u64 = now.saturating_add(RETRY_NS);
        let mut i: usize = 0;
        proof {
            broadcast use vstd::seq_lib::group_to_multiset_ensures;

            assert(Seq::<TimerEntry>::empty().to_multiset() =~= Multiset::empty());
            assert(self.heap@.add(Multiset::empty()) =~= self.heap@);
        }
        while i < due.len()
            invariant
                i <= due@.len(),
                retry_when == retry_at(now),
                self.heap.wf(),
                rt.wf(),
                rt@.gs.len() == old(rt)@.gs.len(),
                row_ok(due@, rt@.gs),
                rt@ == fired(old(rt)@, due@, now, i as nat).rt,
                self.heap@ == old(self).heap@.add(
                    fired(old(rt)@, due@, now, i as nat).retry.to_multiset(),
                ),
                forall|g: int|
                    0 <= g < old(rt)@.gs.len() && !old(rt)@.gs[g].scanning() ==> !(
                    #[trigger] rt@.gs[g]).scanning(),
            decreases due@.len() - i,
        {
            let gp: usize = due[i].gp;
            let ghost v = rt@;
            let ghost h = self.heap@;
            let ghost retry = fired(old(rt)@, due@, now, i as nat).retry;
            let s: u32 = readgstatus(&rt.gs[gp]);
            if s == GWAITING {
                rt.goready(None, gp);
                proof {
                    lemma_fired_step(v, gp);
                }
            } else if s != GDEAD {
                let e = TimerEntry { when: retry_when, gp };
                self.heap.push(e);
                proof {
                    broadcast use vstd::seq_lib::group_to_multiset_ensures;

                    assert(retry.push(e).to_multiset() =~= retry.to_multiset().insert(e));
                    assert(self.heap@ =~= old(self).heap@.add(retry.push(e).to_multiset()));
                }
            }
            i = i + 1;
        }
    }

    /// Fires every timer of the shard that is due at `now`.
    ///
    /// Gives back the timers that were due, in the order in which they fired.
    pub fn fire_due(&mut self, rt: &mut Rt, now: u64) -> (due: Vec<TimerEntry>)
        requires
            old(self).wf(),
            old(rt).wf(),
            timers_ok(old(self).heap@, old(rt)@.gs),
        ensures
            final(self).wf(),
            final(rt).wf(),
            is_due(due@, old(self).heap@.sub(due@.to_multiset()), old(self).heap@, now),
            final(rt)@ == fired(old(rt)@, due@, now, due@.len()).rt,
            final(self).heap@ == old(self).heap@.sub(due@.to_multiset()).add(
                fired(old(rt)@, due@, now, due@.len()).retry.to_multiset(),
            ),
            final(rt)@.gs.len() == old(rt)@.gs.len(),
            forall|g: int|
                0 <= g < old(rt)@.gs.len() && !old(rt)@.gs[g].scanning() ==> !(
                #[trigger] final(rt)@.gs[g]).scanning(),
    {
        let ghost h = self.heap@;
        if self.earliest > now {
            let due: Vec<TimerEntry> = Vec::new();
            proof {
                broadcast use vstd::seq_lib::group_to_multiset_ensures;

                assert(due@.to_multiset() =~= Multiset::empty());
                assert(h.sub(due@.to_multiset()) =~= h);
                assert(due@.to_multiset().add(h) =~= h);
                assert(fired(rt@, due@, now, 0).retry.to_multiset() =~= Multiset::empty());
                assert(h.add(Multiset::empty()) =~= h);
            }
            return due;
        }
        let due = self.heap.pop_due(now);
        proof {
            broadcast use vstd::seq_lib::group_to_multiset_ensures;

            let a = self.heap@;
            assert(h.sub(due@.to_multiset()) =~= a);
            assert forall|i: int| 0 <= i < due@.len() implies (#[trigger] due@[i]).gp < rt@.gs.len()
                && !rt@.gs[due@[i].gp as int].scanning() by {
                assert(due@.contains(due@[i]));
                assert(due@.to_multiset().count(due@[i]) > 0);
                assert(h.contains(due@[i]));
            }
        }
        self.fire(rt, &due, now);
        self.refresh_earliest();
        due
    }
}

/// All shards have right records, and the goroutines behind their timers exist.
pub open spec fn shards_ok(shards: Seq<TimerShard>, gs: Seq<G>) -> bool {
    forall|i: int|
        0 <= i < shards.len() ==> (#[trigger] shards[i]).wf() && timers_ok(shards[i].heap@, gs)
}

/// A shard after the timers in `due` fired and those in `retry` were set again.
pub open spec fn swept(
    before: TimerShard,
    after: TimerShard,
    due: Seq<TimerEntry>,
    retry: Seq<TimerEntry>,
    now: u64,
) -> bool {
    let rest = before.heap@.sub(due.to_multiset());
    &&& is_due(due, rest, before.heap@, now)
    &&& after.wf()
    &&& after.heap@ == rest.add(retry.to_multiset())
}

/// Fires, in all shards, every timer that is due at `now`.
///
/// Gives back the timers that were due in each shard.
pub fn fire_expired(shards: &mut Vec<TimerShard>, rt: &mut Rt, now: u64) -> (dues: Vec<
    Vec<TimerEntry>,
>)
    requires
        old(rt).wf(),
        shards_ok(old(shards)@, old(rt)@.gs),
    ensures
        final(rt).wf(),
        final(shards)@.len() == old(shards)@.len(),
        dues@.len() == old(shards)@.len(),
        final(rt)@ == sweep(old(rt)@, rows_of(dues@), now, dues@.len()).rt,
        forall|i: int|
            0 <= i < dues@.len() ==> swept(
                #[trigger] old(shards)@[i],
                final(shards)@[i],
                dues@[i]@,
                sweep(old(rt)@, rows_of(dues@), now, dues@.len()).retries[i],
                now,
            ),
        final(rt)@.gs.len() == old(rt)@.gs.len(),
        forall|g: usize|
            g < old(rt)@.gs.len() ==> #[trigger] final(rt)@.gs[g as int] == (if overdue(
                old(shards)@,
                now,
                g,
            ) && old(rt)@.gs[g as int].atomicstatus == GWAITING {
                G { atomicstatus: super::g::GRUNNABLE, ..old(rt)@.gs[g as int] }
            } else {
                old(rt)@.gs[g as int]
            }),
        forall|k: int, e: TimerEntry|
            0 <= k < old(shards)@.len() && #[trigger] old(shards)@[k].heap@.contains(e) && e.when
                > now ==> final(shards)@[k].heap@.contains(e),
{
    let n: usize = shards.len();
    let mut dues: Vec<Vec<TimerEntry>> = Vec::new();
    let mut k: usize = 0;
    let ghost v0 = rt@;
    while k < n
        invariant
            k <= n,
            n == shards@.len(),
            n == old(shards)@.len(),
            v0 == old(rt)@,
            rt.wf(),
            dues@.len() == k,
            shards_ok(old(shards)@, v0.gs),
            rt@.gs.len() == v0.gs.len(),
            forall|g: int|
                0 <= g < v0.gs.len() && !v0.gs[g].scanning() ==> !(
                #[trigger] rt@.gs[g]).scanning(),
            rt@ == sweep(v0, rows_of(dues@), now, k as nat).rt,
            sweep(v0, rows_of(dues@), now, k as nat).retries.len() == k,
            forall|i: int|
                0 <= i < k ==> swept(
                    #[trigger] old(shards)@[i],
                    shards@[i],
                    dues@[i]@,
                    sweep(v0, rows_of(dues@), now, k as nat).retries[i],
                    now,
                ),
            forall|i: int| k <= i < n ==> shards@[i] == old(shards)@[i],
        decreases n - k,
    {
        let ghost rows0 = rows_of(dues@);
        let ghost dues0 = dues@;
        let ghost v1 = rt@;
        let ghost sh = shards@;
        proof {
            assert(old(shards)@[k as int].wf());
            assert(timers_ok(shards@[k as int].heap@, rt@.gs)) by {
                assert forall|e: TimerEntry| #[trigger]
                    shards@[k as int].heap@.contains(e) implies e.gp < rt@.gs.len()
                    && !rt@.gs[e.gp as int].scanning() by {
                    assert(!v0.gs[e.gp as int].scanning());
                }
            }
        }
        let due = shards[k].fire_due(rt, now);
        let ghost due_row = due@;
        dues.push(due);
        k = k + 1;
        proof {
            let rows = rows_of(dues@);
            lemma_sweep_prefix(v0, rows0, rows, now, (k - 1) as nat);
            let s0 = sweep(v0, rows0, now, (k - 1) as nat);
            let s = sweep(v0, rows, now, k as nat);
            assert(s.retries == s0.retries.push(
                fired(s0.rt, rows[k - 1], now, rows[k - 1].len()).retry,
            ));
            assert(rows[k - 1] == due_row);
            assert(rt@ == s.rt);
            assert forall|i: int| 0 <= i < k implies swept(
                #[trigger] old(shards)@[i],
                shards@[i],
                dues@[i]@,
                s.retries[i],
                now,
            ) by {
                if i < k - 1 {
                    assert(shards@[i] == sh[i]);
                    assert(dues@[i] == dues0[i]);
                    assert(s.retries[i] == s0.retries[i]);
                }
            }
        }
    }
    proof {
        let rows = rows_of(dues@);
        let retries = sweep(v0, rows, now, rows.len()).retries;
        assert forall|i: int| 0 <= i < rows.len() implies swept(
            #[trigger] old(shards)@[i],
            shards@[i],
            rows[i],
            retries[i],
            now,
        ) by {}
        lemma_overdue(old(shards)@, shards@, rows, retries, v0.gs, now);
        lemma_sweep(v0, rows, now, rows.len());
        assert forall|g: usize| g < v0.gs.len() implies #[trigger] rt@.gs[g as int] == (if overdue(
            old(shards)@,
            now,
            g,
        ) && v0.gs[g as int].atomicstatus == GWAITING {
            G { atomicstatus: super::g::GRUNNABLE, ..v0.gs[g as int] }
        } else {
            v0.gs[g as int]
        }) by {
            assert(due_in(rows, rows.len() as int, g) <==> overdue(old(shards)@, now, g));
        }
    }
    dues
}

/// The firing of some shards does not depend on what is due in later ones.
proof fn lemma_sweep_prefix(
    rt: RtView,
    a: Seq<Seq<TimerEntry>>,
    b: Seq<Seq<TimerEntry>>,
    now: u64,
    n: nat,
)
    requires
        n <= a.len(),
        n <= b.len(),
        forall|i: int| 0 <= i < n ==> a[i] == b[i],
    ensures
        sweep(rt, a, now, n) == sweep(rt, b, now, n),
        sweep(rt, a, now, n).retries.len() == n,
    decreases n,
{
    if n > 0 {
        lemma_sweep_prefix(rt, a, b, now, (n - 1) as nat);
    }
}

/// The shard that a processor uses.
pub fn shard_of(p_id: Option<i32>) -> (i: usize)
    requires
        p_id is Some ==> p_id->0 >= 0,
    ensures
        i == (match p_id {
            None => 0,
            Some(id) => id % 64,
        }),
{
    match p_id {
        None => 0,
        Some(id) => {
            let u: usize = id as usize;
            assert(u & 63 == u % 64) by (bit_vector);
            u & (TIMER_SHARDS - 1)
        },
    }
}

/// What a goroutine that wants to sleep does.
#[derive(Copy, Clone, Debug, PartialEq, Eq, Structural)]
pub enum SleepStep {
    /// It yields: there is nothing to wait for.
    Yield,
    /// It parks.  The timer thread is to be woken first where `wake` is set.
    Park { wake: bool },
}

/// The number of nanoseconds for which a goroutine can be told to sleep: as many
/// as are asked for, or the most there are.
pub fn saturated(nanos: u128) -> (ns: u64)
    ensures
        ns == (if nanos <= u64::MAX {
            nanos as int
        } else {
            u64::MAX as int
        }),
{
    if nanos <= u64::MAX as u128 {
        nanos as u64
    } else {
        u64::MAX
    }
}

/// The time at which a sleep ends.
pub open spec fn sleep_until(now: u64, d: u64) -> u64 {
    if now + d <= u64::MAX {
        (now + d) as u64
    } else {
        u64::MAX
    }
}

/// Lets goroutine `gp` sleep for `d` nanoseconds from `now` on.
///
/// A timer is set in the shard of the processor that runs the goroutine, which
/// is then to park.
pub fn sleep(
    shards: &mut Vec<TimerShard>,
    rt: &mut Rt,
    gp: usize,
    p_id: Option<i32>,
    now: u64,
    d: u64,
) -> (step: SleepStep)
    requires
        old(rt).wf(),
        old(shards)@.len() == TIMER_SHARDS,
        forall|i: int| 0 <= i < old(shards)@.len() ==> (#[trigger] old(shards)@[i]).wf(),
        gp < old(rt)@.gs.len(),
        p_id is Some ==> p_id->0 >= 0,
    ensures
        final(rt).wf(),
        final(shards)@.len() == TIMER_SHARDS,
        d == 0 ==> step == SleepStep::Yield && final(shards)@ == old(shards)@ && final(rt)@
            == old(rt)@,
        d > 0 ==> ({
            let k = match p_id {
                None => 0,
                Some(id) => id as int % 64,
            };
            let e = TimerEntry { when: sleep_until(now, d), gp };
            let s = old(shards)@[k];
            &&& step == SleepStep::Park { wake: s.earliest > e.when }
            &&& final(rt)@ == old(rt)@.with_g(
                gp as int,
                G { waitreason: WaitReason::Sleep, ..old(rt)@.gs[gp as int] },
            )
            &&& final(shards)@[k].wf()
            &&& final(shards)@[k].heap@ == s.heap@.insert(e)
            &&& forall|i: int|
                0 <= i < TIMER_SHARDS && i != k ==> #[trigger] final(shards)@[i] == old(shards)@[i]
        }),
{
    if d == 0 {
        return SleepStep::Yield;
    }
    let when: u64 = now.saturating_add(d);
    let k: usize = shard_of(p_id);
    let wake: bool = shards[k].insert(TimerEntry { when, gp });
    rt.gopark(gp, WaitReason::Sleep);
    SleepStep::Park { wake }
}

/// When the timer thread has to act next.
pub fn next_wake(shards: &Vec<TimerShard>) -> (next: u64)
    ensures
        forall|i: int| 0 <= i < shards@.len() ==> next <= (#[trigger] shards@[i]).earliest,
        next == NO_TIMER || exists|i: int|
            0 <= i < shards@.len() && (#[trigger] shards@[i]).earliest == next,
{
    let mut next: u64 = NO_TIMER;
    let mut i: usize = 0;
    while i < shards.len()
        invariant
            i <= shards@.len(),
            forall|j: int| 0 <= j < i ==> next <= (#[trigger] shards@[j]).earliest,
            next == NO_TIMER || exists|j: int|
                0 <= j < shards@.len() && (#[trigger] shards@[j]).earliest == next,
        decreases shards@.len() - i,
    {
        if shards[i].earliest < next {
            next = shards[i].earliest;
            assert(shards@[i as int].earliest == next);
        }
        i = i + 1;
    }
    next
}

/// How long the timer thread waits, in nanoseconds.
pub fn timer_pause(next: u64, now: u64) -> (ns: u64)
    ensures
        ns == (if next == NO_TIMER {
            IDLE_WAIT_NS as int
        } else if next <= now {
            0
        } else {
            next - now
        }),
{
    if next == NO_TIMER {
        IDLE_WAIT_NS
    } else if next <= now {
        0
    } else {
        next - now
    }
}

/// No goroutine is woken before its time: whatever fires at `now` was due.
pub proof fn nothing_fires_early(
    due: Seq<TimerEntry>,
    after: Multiset<TimerEntry>,
    before: Multiset<TimerEntry>,
    now: u64,
    e: TimerEntry,
)
    requires
        is_due(due, after, before, now),
        due.contains(e),
    ensures
        e.when <= now,
        before.contains(e),
{
    broadcast use vstd::seq_lib::group_to_multiset_ensures;

    assert(due.to_multiset().count(e) > 0);
}

/// No timer is forgotten: every one that was set either fires or waits on.
pub proof fn every_timer_fires_or_waits(
    due: Seq<TimerEntry>,
    after: Multiset<TimerEntry>,
    before: Multiset<TimerEntry>,
    now: u64,
    e: TimerEntry,
)
    requires
        is_due(due, after, before, now),
        before.contains(e),
    ensures
        e.when <= now ==> due.contains(e),
        e.when > now ==> after.contains(e),
{
    broadcast use vstd::seq_lib::group_to_multiset_ensures;

    assert(before.count(e) == due.to_multiset().count(e) + after.count(e));
    assert(due.contains(e) <==> due.to_multiset().count(e) > 0);
    assert(after.contains(e) <==> after.count(e) > 0);
    if e.when > now && due.contains(e) {
        let i = due.index_of(e);
        assert(due[i].when <= now);
    }
}

/// A parked goroutine whose only timer fires first is made ready.
pub proof fn fired_goroutine_is_ready(rt: RtView, due: Seq<TimerEntry>, now: u64)
    requires
        rt.names(),
        due.len() > 0,
        due[0].gp < rt.gs.len(),
        rt.gs[due[0].gp as int].readiness() == Ready::Readied,
    ensures
        fired(rt, due, now, 1).rt == rt.readied(None, due[0].gp),
        fired(rt, due, now, 1).rt.gs[due[0].gp as int].status() == super::g::GRUNNABLE,
{
    reveal_with_fuel(fired, 2);
    super::g::scan_flag_hides_nothing(super::g::GRUNNABLE);
    super::park::ready_touches_only_its_goroutine(rt, None, due[0].gp);
}

/// The clock of the system: a point in time, from which it counts.
#[verifier::external_type_specification]
#[verifier::external_body]
pub struct ExInstant(std::time::Instant);

/// Reads `std::time::Instant::now`.  Nothing is claimed of the point in time
/// that it gives.
#[verifier::external_body]
fn instant_now() -> (t: Instant) {
    Instant::now()
}

/// Asks `std::time::Instant::elapsed` how much time has passed since `start`.
/// Nothing is claimed of it: it depends on when it is asked.
#[verifier::external_body]
fn instant_elapsed(start: &Instant) -> (d: Duration) {
    start.elapsed()
}

/// Asks `std::time::Duration::as_nanos` for the number of nanoseconds in a span
/// of time.  Nothing is claimed of it: a span is opaque, and those that come here
/// depend on when the clock was asked.
#[verifier::external_body]
fn duration_nanos(d: Duration) -> (ns: u128) {
    d.as_nanos()
}

/// A clock that counts nanoseconds and never goes back.
pub struct Clock {
    start: Instant,
    last: u64,
}

impl Clock {
    /// The last time that was read.
    pub closed spec fn last_read(self) -> u64 {
        self.last
    }

    /// The point in time from which it counts.
    pub closed spec fn started(self) -> Instant {
        self.start
    }

    /// A clock that starts now.
    pub fn new() -> (c: Clock)
        ensures
            c.last_read() == 0,
    {
        Clock { start: instant_now(), last: 0 }
    }

    /// Reads the clock: never less than it read before.  It goes on counting
    /// from the same point in time.
    pub fn mono_ns(&mut self) -> (ns: u64)
        ensures
            ns >= old(self).last_read(),
            final(self).last_read() == ns,
            final(self).started() == old(self).started(),
    {
        let shown: u128 = duration_nanos(instant_elapsed(&self.start));
        let ns: u64 = advance(self.last, #[verifier::truncate] (shown as u64));
        self.last = ns;
        ns
    }
}

/// The reading of a clock that read `last` before and is now shown `shown`.
pub fn advance(last: u64, shown: u64) -> (ns: u64)
    ensures
        ns == (if shown >= last {
            shown
        } else {
            last
        }),
{
    if shown >= last {
        shown
    } else {
        last
    }
}

/// The timers in a row are for different goroutines.
pub open spec fn one_timer_each(due: Seq<TimerEntry>) -> bool {
    forall|i: int, j: int|
        0 <= i < j < due.len() ==> (#[trigger] due[i]).gp != (#[trigger] due[j]).gp
}

/// One of the first `n` timers in a row is for goroutine `g`.
pub open spec fn has_timer(due: Seq<TimerEntry>, n: int, g: usize) -> bool {
    exists|i: int| 0 <= i < n && (#[trigger] due[i]).gp == g
}

proof fn lemma_fired(rt: RtView, due: Seq<TimerEntry>, now: u64, n: nat)
    requires
        rt.names(),
        row_ok(due, rt.gs),
        n <= due.len(),
    ensures
        ({
            let f = fired(rt, due, now, n);
            &&& f.rt.names()
            &&& f.rt.gs.len() == rt.gs.len()
            &&& f.rt.ms.len() == rt.ms.len()
            &&& forall|g: usize|
                g < rt.gs.len() ==> #[trigger] f.rt.gs[g as int] == (if has_timer(due, n as int, g)
                    && rt.gs[g as int].atomicstatus == GWAITING {
                    G { atomicstatus: super::g::GRUNNABLE, ..rt.gs[g as int] }
                } else {
                    rt.gs[g as int]
                })
            &&& forall|k: int|
                0 <= k < f.retry.len() ==> (#[trigger] f.retry[k]).when == (if now + 5_000_000
                    <= u64::MAX {
                    now + 5_000_000
                } else {
                    u64::MAX as int
                }) && has_timer(due, n as int, f.retry[k].gp)
            &&& one_timer_each(due) ==> forall|k: int|
                0 <= k < f.retry.len() ==> rt.gs[(#[trigger] f.retry[k]).gp as int].atomicstatus
                    != GWAITING && rt.gs[f.retry[k].gp as int].status() != GDEAD
            &&& forall|i: int|
                0 <= i < n && rt.gs[(#[trigger] due[i]).gp as int].atomicstatus != GWAITING
                    && rt.gs[due[i].gp as int].status() != GDEAD ==> has_timer(
                    f.retry,
                    f.retry.len() as int,
                    due[i].gp,
                )
            &&& f.retry.len() <= n
        }),
    decreases n,
{
    super::g::scan_flag_hides_nothing(super::g::GRUNNABLE);
    if n > 0 {
        let k = (n - 1) as nat;
        lemma_fired(rt, due, now, k);
        let a = fired(rt, due, now, k);
        let f = fired(rt, due, now, n);
        let gp = due[k as int].gp;
        let s = a.rt.gs[gp as int].status();
        super::park::ready_touches_only_its_goroutine(a.rt, None, gp);
        super::park::ready_keeps_names(a.rt, None, gp);
        super::park::lemma_parked_status(a.rt.gs[gp as int]);
        super::park::lemma_parked_status(rt.gs[gp as int]);
        assert(!rt.gs[gp as int].scanning());
        assert(a.rt.gs[gp as int].scanning() ==> false);
        assert forall|g: usize| has_timer(due, n as int, g) <==> has_timer(due, k as int, g) || g
            == gp by {
            if has_timer(due, k as int, g) {
                let i = choose|i: int| 0 <= i < k && (#[trigger] due[i]).gp == g;
                assert(due[i].gp == g);
            }
            if g == gp {
                assert(due[k as int].gp == g);
            }
        }
        assert forall|g: usize| g < rt.gs.len() implies #[trigger] f.rt.gs[g as int] == (
        if has_timer(due, n as int, g) && rt.gs[g as int].atomicstatus == GWAITING {
            G { atomicstatus: super::g::GRUNNABLE, ..rt.gs[g as int] }
        } else {
            rt.gs[g as int]
        }) by {
            assert(a.rt.gs[g as int] == a.rt.gs[g as int]);
            if g != gp {
                assert(f.rt.gs[g as int] == a.rt.gs[g as int]);
            }
        }
        assert forall|j: int| 0 <= j < f.retry.len() implies (#[trigger] f.retry[j]).when == (
        if now + 5_000_000 <= u64::MAX {
            now + 5_000_000
        } else {
            u64::MAX as int
        }) && has_timer(due, n as int, f.retry[j].gp) by {
            if j < a.retry.len() {
                assert(f.retry[j] == a.retry[j]);
            }
        }
        if one_timer_each(due) {
            assert(!has_timer(due, k as int, gp)) by {
                if has_timer(due, k as int, gp) {
                    let i = choose|i: int| 0 <= i < k && (#[trigger] due[i]).gp == gp;
                    assert(due[i].gp != due[k as int].gp);
                }
            }
            assert(a.rt.gs[gp as int] == rt.gs[gp as int]);
            assert forall|j: int| 0 <= j < f.retry.len() implies rt.gs[(
            #[trigger] f.retry[j]).gp as int].atomicstatus != GWAITING
                && rt.gs[f.retry[j].gp as int].status() != GDEAD by {
                if j < a.retry.len() {
                    assert(f.retry[j] == a.retry[j]);
                }
            }
        }
        assert forall|i: int|
            0 <= i < n && rt.gs[(#[trigger] due[i]).gp as int].atomicstatus != GWAITING
                && rt.gs[due[i].gp as int].status() != GDEAD implies has_timer(
            f.retry,
            f.retry.len() as int,
            due[i].gp,
        ) by {
            if i < k {
                let j = choose|j: int| 0 <= j < a.retry.len() && (#[trigger] a.retry[j]).gp == due[i].gp;
                assert(f.retry[j] == a.retry[j]);
            } else {
                assert(a.rt.gs[gp as int] == rt.gs[gp as int]);
                assert(f.retry[f.retry.len() - 1].gp == gp);
            }
        }
    }
}

/// Every timer that has come due is served in the same firing, however many there
/// are: a goroutine that was parked is runnable, with nothing else about it
/// changed, and is not tried again; one that has not parked yet is tried again
/// five milliseconds later; one that has ended is forgotten.  A goroutine without
/// a due timer is not touched.
pub proof fn every_due_goroutine_is_served(rt: RtView, due: Seq<TimerEntry>, now: u64, g: usize)
    requires
        rt.names(),
        row_ok(due, rt.gs),
        g < rt.gs.len(),
    ensures
        ({
            let f = fired(rt, due, now, due.len());
            let a = rt.gs[g as int];
            let timed = exists|i: int| 0 <= i < due.len() && (#[trigger] due[i]).gp == g;
            let again = exists|k: int| 0 <= k < f.retry.len() && (#[trigger] f.retry[k]).gp == g;
            &&& timed && a.atomicstatus == GWAITING ==> f.rt.gs[g as int] == (G {
                atomicstatus: super::g::GRUNNABLE,
                ..a
            })
            &&& !timed || a.atomicstatus != GWAITING ==> f.rt.gs[g as int] == a
            &&& !timed ==> !again
            &&& one_timer_each(due) && a.atomicstatus == GWAITING ==> !again
            &&& one_timer_each(due) && a.atomicstatus == GDEAD ==> !again
            &&& timed && a.atomicstatus != GWAITING && a.atomicstatus != GDEAD ==> again
            &&& forall|k: int|
                0 <= k < f.retry.len() && now <= u64::MAX - 5_000_000 ==> (
                #[trigger] f.retry[k]).when == now + 5_000_000
        }),
{
    lemma_fired(rt, due, now, due.len());
    let f = fired(rt, due, now, due.len());
    let a = rt.gs[g as int];
    super::g::scan_flag_hides_nothing(GDEAD);
    super::g::scan_flag_hides_nothing(GWAITING);
    assert(has_timer(due, due.len() as int, g) <==> exists|i: int|
        0 <= i < due.len() && (#[trigger] due[i]).gp == g);
    if has_timer(f.retry, f.retry.len() as int, g) {
        let k = choose|k: int| 0 <= k < f.retry.len() && (#[trigger] f.retry[k]).gp == g;
        assert(f.retry[k].gp == g);
    }
    assert(has_timer(f.retry, f.retry.len() as int, g) <==> exists|k: int|
        0 <= k < f.retry.len() && (#[trigger] f.retry[k]).gp == g);
    if has_timer(due, due.len() as int, g) {
        let i = choose|i: int| 0 <= i < due.len() && (#[trigger] due[i]).gp == g;
        assert(!rt.gs[due[i].gp as int].scanning());
        super::g::lemma_base_status(a.atomicstatus);
    }
}

/// A timer for goroutine `g` in one of the first `n` rows has come due.
pub open spec fn due_in(dues: Seq<Seq<TimerEntry>>, n: int, g: usize) -> bool {
    exists|k: int|
        0 <= k < n && has_timer(#[trigger] dues[k], dues[k].len() as int, g)
}

proof fn lemma_sweep(rt: RtView, dues: Seq<Seq<TimerEntry>>, now: u64, n: nat)
    requires
        rt.names(),
        forall|k: int| 0 <= k < dues.len() ==> row_ok(#[trigger] dues[k], rt.gs),
        n <= dues.len(),
    ensures
        ({
            let s = sweep(rt, dues, now, n);
            &&& s.rt.names()
            &&& s.rt.gs.len() == rt.gs.len()
            &&& s.retries.len() == n
            &&& forall|g: usize|
                g < rt.gs.len() ==> #[trigger] s.rt.gs[g as int] == (if due_in(dues, n as int, g)
                    && rt.gs[g as int].atomicstatus == GWAITING {
                    G { atomicstatus: super::g::GRUNNABLE, ..rt.gs[g as int] }
                } else {
                    rt.gs[g as int]
                })
        }),
    decreases n,
{
    super::g::scan_flag_hides_nothing(super::g::GRUNNABLE);
    if n > 0 {
        let k = (n - 1) as nat;
        lemma_sweep(rt, dues, now, k);
        let a = sweep(rt, dues, now, k);
        let row = dues[k as int];
        assert(row_ok(row, a.rt.gs)) by {
            assert forall|i: int| 0 <= i < row.len() implies (#[trigger] row[i]).gp < a.rt.gs.len()
                && !a.rt.gs[row[i].gp as int].scanning() by {
                assert(!rt.gs[row[i].gp as int].scanning());
                assert(a.rt.gs[row[i].gp as int] == a.rt.gs[row[i].gp as int]);
            }
        }
        lemma_fired(a.rt, row, now, row.len());
        let s = sweep(rt, dues, now, n);
        assert forall|g: usize| g < rt.gs.len() implies #[trigger] s.rt.gs[g as int] == (
        if due_in(dues, n as int, g) && rt.gs[g as int].atomicstatus == GWAITING {
            G { atomicstatus: super::g::GRUNNABLE, ..rt.gs[g as int] }
        } else {
            rt.gs[g as int]
        }) by {
            assert(a.rt.gs[g as int] == a.rt.gs[g as int]);
            if due_in(dues, k as int, g) {
                let j = choose|j: int|
                    0 <= j < k && has_timer(#[trigger] dues[j], dues[j].len() as int, g);
                assert(has_timer(dues[j], dues[j].len() as int, g));
            }
            if has_timer(row, row.len() as int, g) {
                assert(has_timer(dues[k as int], dues[k as int].len() as int, g));
            }
        }
    }
}

/// Some shard holds a timer for goroutine `g` that is due at `now`.
pub open spec fn overdue(shards: Seq<TimerShard>, now: u64, g: usize) -> bool {
    exists|k: int, e: TimerEntry|
        0 <= k < shards.len() && #[trigger] shards[k].heap@.contains(e) && e.when <= now && e.gp
            == g
}

proof fn lemma_overdue(
    shards: Seq<TimerShard>,
    after: Seq<TimerShard>,
    dues: Seq<Seq<TimerEntry>>,
    retries: Seq<Seq<TimerEntry>>,
    gs: Seq<G>,
    now: u64,
)
    requires
        shards_ok(shards, gs),
        dues.len() == shards.len(),
        forall|i: int|
            0 <= i < dues.len() ==> swept(
                #[trigger] shards[i],
                after[i],
                dues[i],
                retries[i],
                now,
            ),
    ensures
        forall|k: int| 0 <= k < dues.len() ==> row_ok(#[trigger] dues[k], gs),
        forall|g: usize| #[trigger]
            due_in(dues, dues.len() as int, g) <==> overdue(shards, now, g),
        forall|k: int, e: TimerEntry|
            0 <= k < shards.len() && #[trigger] shards[k].heap@.contains(e) && e.when > now
                ==> after[k].heap@.contains(e),
{
    broadcast use vstd::seq_lib::group_to_multiset_ensures;

    assert forall|k: int| 0 <= k < dues.len() implies row_ok(#[trigger] dues[k], gs) by {
        assert(swept(shards[k], after[k], dues[k], retries[k], now));
        assert forall|i: int| 0 <= i < dues[k].len() implies (#[trigger] dues[k][i]).gp < gs.len()
            && !gs[dues[k][i].gp as int].scanning() by {
            let rest = shards[k].heap@.sub(dues[k].to_multiset());
            assert(dues[k].contains(dues[k][i]));
            nothing_fires_early(dues[k], rest, shards[k].heap@, now, dues[k][i]);
            assert(timers_ok(shards[k].heap@, gs));
        }
    }
    assert forall|g: usize| #[trigger] due_in(dues, dues.len() as int, g) <==> overdue(
        shards,
        now,
        g,
    ) by {
        if due_in(dues, dues.len() as int, g) {
            let k = choose|k: int|
                0 <= k < dues.len() && has_timer(#[trigger] dues[k], dues[k].len() as int, g);
            let i = choose|i: int| 0 <= i < dues[k].len() && (#[trigger] dues[k][i]).gp == g;
            assert(swept(shards[k], after[k], dues[k], retries[k], now));
            let rest = shards[k].heap@.sub(dues[k].to_multiset());
            assert(dues[k].contains(dues[k][i]));
            nothing_fires_early(dues[k], rest, shards[k].heap@, now, dues[k][i]);
            assert(shards[k].heap@.contains(dues[k][i]));
        }
        if overdue(shards, now, g) {
            let (k, e) = choose|k: int, e: TimerEntry|
                0 <= k < shards.len() && #[trigger] shards[k].heap@.contains(e) && e.when <= now
                    && e.gp == g;
            assert(swept(shards[k], after[k], dues[k], retries[k], now));
            let rest = shards[k].heap@.sub(dues[k].to_multiset());
            every_timer_fires_or_waits(dues[k], rest, shards[k].heap@, now, e);
            let i = dues[k].index_of(e);
            assert(dues[k][i].gp == g);
            assert(has_timer(dues[k], dues[k].len() as int, g));
        }
    }
    assert forall|k: int, e: TimerEntry|
        0 <= k < shards.len() && #[trigger] shards[k].heap@.contains(e) && e.when > now implies
        after[k].heap@.contains(e) by {
        assert(swept(shards[k], after[k], dues[k], retries[k], now));
        let rest = shards[k].heap@.sub(dues[k].to_multiset());
        every_timer_fires_or_waits(dues[k], rest, shards[k].heap@, now, e);
        assert(after[k].heap@.count(e) >= rest.count(e));
    }
}

/// Timers are served in every shard: whoever was parked and has a timer that is
/// due, in whichever shard, is runnable after one sweep; nobody else is touched;
/// and a timer that is not due is still there.
pub proof fn every_shard_is_served(
    rt: RtView,
    shards: Seq<TimerShard>,
    after: Seq<TimerShard>,
    dues: Seq<Seq<TimerEntry>>,
    now: u64,
    g: usize,
)
    requires
        rt.names(),
        g < rt.gs.len(),
        shards_ok(shards, rt.gs),
        dues.len() == shards.len(),
        forall|i: int|
            0 <= i < dues.len() ==> swept(
                #[trigger] shards[i],
                after[i],
                dues[i],
                sweep(rt, dues, now, dues.len()).retries[i],
                now,
            ),
    ensures
        ({
            let b = sweep(rt, dues, now, dues.len()).rt.gs[g as int];
            let a = rt.gs[g as int];
            let timed = exists|k: int, e: TimerEntry|
                0 <= k < shards.len() && #[trigger] shards[k].heap@.contains(e) && e.when <= now
                    && e.gp == g;
            &&& timed && a.atomicstatus == GWAITING ==> b == (G {
                atomicstatus: super::g::GRUNNABLE,
                ..a
            })
            &&& !timed || a.atomicstatus != GWAITING ==> b == a
        }),
        forall|k: int, e: TimerEntry|
            0 <= k < shards.len() && #[trigger] shards[k].heap@.contains(e) && e.when > now
                ==> after[k].heap@.contains(e),
{
    let retries = sweep(rt, dues, now, dues.len()).retries;
    lemma_overdue(shards, after, dues, retries, rt.gs, now);
    lemma_sweep(rt, dues, now, dues.len());
    assert(due_in(dues, dues.len() as int, g) <==> overdue(shards, now, g));
}

/// A goroutine that begins to sleep at `now` for `d` nanoseconds is among those
/// that fire at time `t` exactly when that long has passed.
pub proof fn a_sleep_lasts_as_long_as_asked(
    timers: Multiset<TimerEntry>,
    gp: usize,
    now: u64,
    d: u64,
    t: u64,
    due: Seq<TimerEntry>,
    after: Multiset<TimerEntry>,
)
    requires
        now + d <= u64::MAX,
        is_due(
            due,
            after,
            timers.insert(TimerEntry { when: sleep_until(now, d), gp }),
            t,
        ),
    ensures
        due.contains(TimerEntry { when: (now + d) as u64, gp }) <==> t - now >= d,
        t - now < d ==> after.contains(TimerEntry { when: (now + d) as u64, gp }),
{
    let e = TimerEntry { when: sleep_until(now, d), gp };
    let all = timers.insert(e);
    assert(all.contains(e));
    every_timer_fires_or_waits(due, after, all, t, e);
    if due.contains(e) {
        nothing_fires_early(due, after, all, t, e);
    }
}

/// A sleep that would end beyond the last time there is ends then, and not
/// before.
pub proof fn a_long_sleep_saturates(now: u64, d: u64)
    requires
        now + d > u64::MAX,
    ensures
        sleep_until(now, d) == u64::MAX,
{
}

/// Of two goroutines that are due together, the one that was due earlier is woken
/// first.
pub proof fn the_earlier_timer_fires_first(
    due: Seq<TimerEntry>,
    after: Multiset<TimerEntry>,
    before: Multiset<TimerEntry>,
    now: u64,
    i: int,
    j: int,
)
    requires
        is_due(due, after, before, now),
        0 <= i < due.len(),
        0 <= j < due.len(),
        due[i].when < due[j].when,
    ensures
        i < j,
{
    if j <= i {
        assert(due[j].when <= due[i].when);
    }
}

/// The timer thread wakes in time: no timer of an intact shard is due before the
/// time that the shard has noted, and where there is a timer, one is due then.
pub proof fn the_noted_time_is_right(s: TimerShard, e: TimerEntry)
    requires
        s.wf(),
        s.heap@.contains(e),
    ensures
        s.earliest <= e.when,
        exists|x: TimerEntry| #[trigger] s.heap@.contains(x) && x.when == s.earliest,
{
    assert(s.heap@.count(e) > 0);
    if s.heap@.len() == 0 {
        assert(s.heap@.remove(e).len() == s.heap@.len() - 1);
    }
}

/// Firing timers changes nothing but goroutines, queues and who is brought to work.
pub proof fn firing_changes_no_more(rt: RtView, due: Seq<TimerEntry>, now: u64, n: nat)
    ensures
        ({
            let w = fired(rt, due, now, n).rt;
            w == (RtView {
                gs: w.gs,
                ps: w.ps,
                ms: w.ms,
                global: w.global,
                idle_p: w.idle_p,
                idle_m: w.idle_m,
                ..rt
            })
        }),
    decreases n,
{
    if n > 0 {
        firing_changes_no_more(rt, due, now, (n - 1) as nat);
    }
}

/// Goroutines whose timers fire together wait on the global queue, behind all
/// others, in the order in which they were due.
pub proof fn the_woken_queue_in_order(rt: RtView, due: Seq<TimerEntry>, now: u64, n: nat)
    requires
        rt.names(),
        row_ok(due, rt.gs),
        one_timer_each(due),
        n <= due.len(),
        forall|i: int|
            0 <= i < due.len() ==> rt.gs[(#[trigger] due[i]).gp as int].atomicstatus == GWAITING,
    ensures
        fired(rt, due, now, n).rt.global == rt.global + Seq::new(n, |i: int| due[i].gp),
        fired(rt, due, now, n).retry.len() == 0,
    decreases n,
{
    if n > 0 {
        let k = (n - 1) as nat;
        the_woken_queue_in_order(rt, due, now, k);
        lemma_fired(rt, due, now, k);
        let f = fired(rt, due, now, k);
        let gp = due[k as int].gp;
        assert(!has_timer(due, k as int, gp)) by {
            if has_timer(due, k as int, gp) {
                let i = choose|i: int| 0 <= i < k && (#[trigger] due[i]).gp == gp;
                assert(due[i].gp != due[k as int].gp);
            }
        }
        assert(f.rt.gs[gp as int] == rt.gs[gp as int]);
        super::park::lemma_parked_status(f.rt.gs[gp as int]);
        super::g::scan_flag_hides_nothing(GWAITING);
        assert(fired(rt, due, now, n).rt.global =~= f.rt.global.push(gp));
        assert(rt.global + Seq::new(n, |i: int| due[i].gp) =~= (rt.global + Seq::new(
            k,
            |i: int| due[i].gp,
        )).push(gp));
    } else {
        assert(rt.global + Seq::new(0, |i: int| due[i].gp) =~= rt.global);
    }
}

} // verus!
