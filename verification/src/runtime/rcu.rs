//! Keeping goroutine descriptors alive while somebody may still follow a name
//! to one.
//!
//! Readers hold a guard while they do.  A drainer, which frees descriptors,
//! keeps new readers out and waits until the present ones are gone.

use vstd::prelude::*;

verus! {

/// The two counters that readers and drainers share.
#[derive(Copy, Clone, Debug, PartialEq, Eq, Structural)]
pub struct Rcu {
    /// Readers that hold a guard or are about to.
    pub in_cs: i64,
    /// Drainers that keep readers out.
    pub drain_block: i64,
}

/// How far a reader has come.
#[derive(Copy, Clone, Debug, PartialEq, Eq, Structural)]
pub enum Reader {
    /// It has not begun, or has let go of its guard.
    Idle,
    /// It has announced itself, and has yet to see whether a drainer is there.
    Trying,
    /// A drainer was there; it waits until none is.
    Waiting,
    /// It holds a guard.
    Holding,
}

/// How far a drainer has come.
#[derive(Copy, Clone, Debug, PartialEq, Eq, Structural)]
pub enum Drainer {
    /// It has not begun, or is done.
    Idle,
    /// It keeps new readers out and waits for the others.
    Waiting,
    /// It has the descriptors to itself.
    Holding,
}

impl Reader {
    /// The reader is counted.
    pub open spec fn counted(self) -> bool {
        self == Reader::Trying || self == Reader::Holding
    }
}

impl Drainer {
    /// The drainer is counted.
    pub open spec fn counted(self) -> bool {
        self == Drainer::Waiting || self == Drainer::Holding
    }
}

impl Rcu {
    /// One step of a reader.
    pub open spec fn reader_stepped(self, r: Reader) -> (Rcu, Reader) {
        match r {
            Reader::Idle => (Rcu { in_cs: (self.in_cs + 1) as i64, ..self }, Reader::Trying),
            Reader::Trying => if self.drain_block == 0 {
                (self, Reader::Holding)
            } else {
                (Rcu { in_cs: (self.in_cs - 1) as i64, ..self }, Reader::Waiting)
            },
            Reader::Waiting => if self.drain_block == 0 {
                (self, Reader::Idle)
            } else {
                (self, Reader::Waiting)
            },
            Reader::Holding => (Rcu { in_cs: (self.in_cs - 1) as i64, ..self }, Reader::Idle),
        }
    }

    /// One step of a drainer.
    pub open spec fn drainer_stepped(self, d: Drainer) -> (Rcu, Drainer) {
        match d {
            Drainer::Idle => (
                Rcu { drain_block: (self.drain_block + 1) as i64, ..self },
                Drainer::Waiting,
            ),
            Drainer::Waiting => if self.in_cs > 0 {
                (self, Drainer::Waiting)
            } else {
                (self, Drainer::Holding)
            },
            Drainer::Holding => (
                Rcu { drain_block: (self.drain_block - 1) as i64, ..self },
                Drainer::Idle,
            ),
        }
    }

    /// Nobody reads, nobody drains.
    pub fn new() -> (s: Rcu)
        ensures
            s == (Rcu { in_cs: 0, drain_block: 0 }),
    {
        Rcu { in_cs: 0, drain_block: 0 }
    }

    /// One step of a reader: from `Idle` towards a guard; from `Holding` it lets
    /// go of it.
    pub fn reader_step(&mut self, r: Reader) -> (next: Reader)
        requires
            r == Reader::Idle ==> old(self).in_cs < i64::MAX,
            r.counted() ==> old(self).in_cs > 0,
        ensures
            (*final(self), next) == old(self).reader_stepped(r),
    {
        match r {
            Reader::Idle => {
                self.in_cs = self.in_cs + 1;
                Reader::Trying
            },
            Reader::Trying => {
                if self.drain_block == 0 {
                    Reader::Holding
                } else {
                    self.in_cs = self.in_cs - 1;
                    Reader::Waiting
                }
            },
            Reader::Waiting => {
                if self.drain_block == 0 {
                    Reader::Idle
                } else {
                    Reader::Waiting
                }
            },
            Reader::Holding => {
                self.in_cs = self.in_cs - 1;
                Reader::Idle
            },
        }
    }

    /// One step of a drainer: from `Idle` towards having the descriptors to
    /// itself; from `Holding` it is done.
    pub fn drainer_step(&mut self, d: Drainer) -> (next: Drainer)
        requires
            d == Drainer::Idle ==> old(self).drain_block < i64::MAX,
            d.counted() ==> old(self).drain_block > 0,
        ensures
            (*final(self), next) == old(self).drainer_stepped(d),
    {
        match d {
            Drainer::Idle => {
                self.drain_block = self.drain_block + 1;
                Drainer::Waiting
            },
            Drainer::Waiting => {
                if self.in_cs > 0 {
                    Drainer::Waiting
                } else {
                    Drainer::Holding
                }
            },
            Drainer::Holding => {
                self.drain_block = self.drain_block - 1;
                Drainer::Idle
            },
        }
    }
}

/// Any number of readers and drainers, with what they share.
#[verifier::ext_equal]
pub struct Threads {
    pub rcu: Rcu,
    pub readers: Seq<Reader>,
    pub drainers: Seq<Drainer>,
}

/// How many readers are counted.
pub open spec fn readers_in(s: Seq<Reader>) -> nat
    decreases s.len(),
{
    if s.len() == 0 {
        0
    } else {
        readers_in(s.drop_last()) + if s.last().counted() {
            1nat
        } else {
            0nat
        }
    }
}

/// How many drainers are counted.
pub open spec fn drainers_in(s: Seq<Drainer>) -> nat
    decreases s.len(),
{
    if s.len() == 0 {
        0
    } else {
        drainers_in(s.drop_last()) + if s.last().counted() {
            1nat
        } else {
            0nat
        }
    }
}

impl Threads {
    /// The counters are right, and no reader holds a guard while a drainer has
    /// the descriptors to itself.
    pub open spec fn inv(self) -> bool {
        &&& self.rcu.in_cs == readers_in(self.readers)
        &&& self.rcu.drain_block == drainers_in(self.drainers)
        &&& forall|i: int, j: int|
            0 <= i < self.readers.len() && 0 <= j < self.drainers.len() ==> !(
            #[trigger] self.readers[i] == Reader::Holding && #[trigger] self.drainers[j]
                == Drainer::Holding)
    }

    /// Reader `i` has made a step.
    pub open spec fn reader_moved(self, i: int) -> Threads {
        let (rcu, next) = self.rcu.reader_stepped(self.readers[i]);
        Threads { rcu, readers: self.readers.update(i, next), ..self }
    }

    /// Drainer `j` has made a step.
    pub open spec fn drainer_moved(self, j: int) -> Threads {
        let (rcu, next) = self.rcu.drainer_stepped(self.drainers[j]);
        Threads { rcu, drainers: self.drainers.update(j, next), ..self }
    }
}

proof fn lemma_readers_update(s: Seq<Reader>, i: int, r: Reader)
    requires
        0 <= i < s.len(),
    ensures
        readers_in(s.update(i, r)) == readers_in(s) + (if r.counted() {
            1int
        } else {
            0int
        }) - (if s[i].counted() {
            1int
        } else {
            0int
        }),
        s[i].counted() ==> readers_in(s) > 0,
        readers_in(s) <= s.len(),
    decreases s.len(),
{
    let t = s.update(i, r);
    if i < s.len() - 1 {
        lemma_readers_update(s.drop_last(), i, r);
        assert(t.drop_last() =~= s.drop_last().update(i, r));
    } else {
        assert(t.drop_last() =~= s.drop_last());
        if s.len() > 1 {
            lemma_readers_update(s.drop_last(), 0, s[0]);
        }
    }
}

proof fn lemma_drainers_update(s: Seq<Drainer>, i: int, d: Drainer)
    requires
        0 <= i < s.len(),
    ensures
        drainers_in(s.update(i, d)) == drainers_in(s) + (if d.counted() {
            1int
        } else {
            0int
        }) - (if s[i].counted() {
            1int
        } else {
            0int
        }),
        s[i].counted() ==> drainers_in(s) > 0,
        drainers_in(s) <= s.len(),
    decreases s.len(),
{
    let t = s.update(i, d);
    if i < s.len() - 1 {
        lemma_drainers_update(s.drop_last(), i, d);
        assert(t.drop_last() =~= s.drop_last().update(i, d));
    } else {
        assert(t.drop_last() =~= s.drop_last());
        if s.len() > 1 {
            lemma_drainers_update(s.drop_last(), 0, s[0]);
        }
    }
}

/// Whatever step a reader makes, the exclusion holds on.
pub proof fn reader_keeps_exclusion(s: Threads, i: int)
    requires
        s.inv(),
        0 <= i < s.readers.len(),
        s.readers.len() < i64::MAX,
    ensures
        s.reader_moved(i).inv(),
{
    let next = s.rcu.reader_stepped(s.readers[i]).1;
    lemma_readers_update(s.readers, i, next);
    if next == Reader::Holding {
        assert forall|j: int| 0 <= j < s.drainers.len() implies #[trigger] s.drainers[j]
            != Drainer::Holding by {
            lemma_drainers_update(s.drainers, j, s.drainers[j]);
        }
    }
}

/// Whatever step a drainer makes, the exclusion holds on.
pub proof fn drainer_keeps_exclusion(s: Threads, j: int)
    requires
        s.inv(),
        0 <= j < s.drainers.len(),
        s.drainers.len() < i64::MAX,
    ensures
        s.drainer_moved(j).inv(),
{
    let next = s.rcu.drainer_stepped(s.drainers[j]).1;
    lemma_drainers_update(s.drainers, j, next);
    if next == Drainer::Holding {
        assert forall|i: int| 0 <= i < s.readers.len() implies #[trigger] s.readers[i]
            != Reader::Holding by {
            lemma_readers_update(s.readers, i, s.readers[i]);
        }
    }
}

/// As long as one drainer has the descriptors to itself, or waits for them, no
/// reader gets a guard.
pub proof fn no_guard_while_draining(s: Threads, i: int, j: int)
    requires
        s.inv(),
        0 <= i < s.readers.len(),
        0 <= j < s.drainers.len(),
        s.drainers[j].counted(),
        s.readers[i] != Reader::Holding,
    ensures
        s.reader_moved(i).readers[i] != Reader::Holding,
{
    lemma_drainers_update(s.drainers, j, s.drainers[j]);
}

/// Where no drainer is there, a reader has its guard after two steps, and after a
/// third everything is as before.
pub proof fn a_reader_gets_its_guard(s: Rcu)
    requires
        s.drain_block == 0,
        0 <= s.in_cs < i64::MAX,
    ensures
        ({
            let (a, r) = s.reader_stepped(Reader::Idle);
            let (b, held) = a.reader_stepped(r);
            let (c, end) = b.reader_stepped(held);
            &&& r != Reader::Holding
            &&& a.in_cs == s.in_cs + 1
            &&& held == Reader::Holding && b.in_cs == s.in_cs + 1
            &&& end == Reader::Idle && c == s
        }),
{
}

/// Where a drainer is there, a reader that tries is turned away and no longer
/// counted; it begins anew exactly when no drainer is left.
pub proof fn a_reader_waits_for_the_drainers(s: Rcu, t: Rcu)
    requires
        s.drain_block > 0,
        s.in_cs > 0,
    ensures
        s.reader_stepped(Reader::Trying) == (
            Rcu { in_cs: (s.in_cs - 1) as i64, drain_block: s.drain_block },
            Reader::Waiting,
        ),
        t.reader_stepped(Reader::Waiting).0 == t,
        t.drain_block != 0 ==> t.reader_stepped(Reader::Waiting).1 == Reader::Waiting,
        t.drain_block == 0 ==> t.reader_stepped(Reader::Waiting).1 == Reader::Idle,
{
}

/// A drainer keeps readers out from its first step on; it has the descriptors to
/// itself exactly when no reader is counted, and not before; and when it is done
/// everything is as before.
pub proof fn a_drainer_gets_its_turn(s: Rcu)
    requires
        0 <= s.drain_block < i64::MAX,
        s.in_cs >= 0,
    ensures
        ({
            let (a, d) = s.drainer_stepped(Drainer::Idle);
            let (b, e) = a.drainer_stepped(d);
            &&& a.drain_block == s.drain_block + 1 && a.in_cs == s.in_cs
            &&& d != Drainer::Idle && d != Drainer::Holding
            &&& b == a
            &&& e == Drainer::Holding <==> s.in_cs == 0
            &&& s.in_cs > 0 ==> e == d
            &&& a.drainer_stepped(Drainer::Holding) == (s, Drainer::Idle)
        }),
{
}

} // verus!
