//! Goroutines that wait for input or output.
//!
//! A goroutine that would block registers its file descriptor and parks.  When
//! the system reports the descriptor as ready, the registration is taken back
//! and the goroutine is made ready.

use vstd::prelude::*;

use std::collections::HashMap;

verus! {

broadcast use vstd::std_specs::hash::group_hash_axioms;

/// The goroutine waits until it can read.
pub const POLL_READ: u32 = 1;

/// The goroutine waits until it can write.
pub const POLL_WRITE: u32 = 2;

/// Who waits for which descriptor.
pub struct Netpoll {
    /// The descriptor of the system's poller; negative before there is one.
    pub pfd: i32,
    /// The goroutine that waits for each descriptor, and for what.
    pub reg: HashMap<i32, (usize, u32)>,
}

/// A change that is to be made to the set of descriptors that the system's poller
/// watches.
#[derive(Copy, Clone, Debug, PartialEq, Eq, Structural)]
pub enum PollChange {
    /// None.
    Keep,
    /// `fd` is to be watched, once, for what `mode` says.
    Watch { pfd: i32, fd: i32, mode: u32 },
    /// `fd` is not to be watched any more.
    Forget { pfd: i32, fd: i32 },
}

/// What taking ready descriptors out of a table comes to.
pub struct Collected {
    pub reg: Map<i32, (usize, u32)>,
    /// The goroutines that waited for them, in order.
    pub ready: Seq<usize>,
    /// The descriptors that are not to be watched any more.
    pub forget: Seq<i32>,
}

/// The first `n` of `fds` are ready: whoever waits for one does so no more.
pub open spec fn collected(reg: Map<i32, (usize, u32)>, fds: Seq<i32>, n: nat) -> Collected
    decreases n,
{
    if n == 0 {
        Collected { reg, ready: Seq::empty(), forget: Seq::empty() }
    } else {
        let c = collected(reg, fds, (n - 1) as nat);
        let fd = fds[n - 1];
        if c.reg.contains_key(fd) {
            Collected {
                reg: c.reg.remove(fd),
                ready: c.ready.push(c.reg[fd].0),
                forget: c.forget.push(fd),
            }
        } else {
            c
        }
    }
}

impl Netpoll {
    /// Nobody waits, and there is no poller yet.
    pub fn new() -> (p: Netpoll)
        ensures
            p.pfd == -1,
            p.reg@ == Map::<i32, (usize, u32)>::empty(),
    {
        Netpoll { pfd: -1, reg: HashMap::new() }
    }

    /// Installs the poller `fd` that was just made, unless there is one.  Gives
    /// back the descriptor that is to be closed.
    pub fn netpoll_init(&mut self, fd: i32) -> (close: Option<i32>)
        requires
            fd >= 0,
        ensures
            final(self).reg@ == old(self).reg@,
            old(self).pfd < 0 ==> final(self).pfd == fd && close is None,
            old(self).pfd >= 0 ==> final(self).pfd == old(self).pfd && close == Some(fd),
    {
        if self.pfd >= 0 {
            Some(fd)
        } else {
            self.pfd = fd;
            None
        }
    }

    /// Registers goroutine `gp` for `fd`; without a poller nothing happens.
    pub fn netpoll_arm(&mut self, fd: i32, mode: u32, gp: usize) -> (change: PollChange)
        ensures
            final(self).pfd == old(self).pfd,
            old(self).pfd < 0 ==> change == PollChange::Keep && final(self).reg@ == old(self).reg@,
            old(self).pfd >= 0 ==> change == (PollChange::Watch { pfd: old(self).pfd, fd, mode })
                && final(self).reg@ == old(self).reg@.insert(fd, (gp, mode)),
    {
        if self.pfd < 0 {
            return PollChange::Keep;
        }
        self.reg.insert(fd, (gp, mode));
        PollChange::Watch { pfd: self.pfd, fd, mode }
    }

    /// Takes a registration back.
    pub fn netpoll_unarm(&mut self, fd: i32) -> (change: PollChange)
        ensures
            final(self).pfd == old(self).pfd,
            final(self).reg@ == old(self).reg@.remove(fd),
            change == (if old(self).pfd >= 0 {
                PollChange::Forget { pfd: old(self).pfd, fd }
            } else {
                PollChange::Keep
            }),
    {
        let _ = self.reg.remove(&fd);
        assert(self.reg@ =~= old(self).reg@.remove(fd));
        if self.pfd >= 0 {
            PollChange::Forget { pfd: self.pfd, fd }
        } else {
            PollChange::Keep
        }
    }

    /// Takes all registrations back.  Gives back the descriptors that are not to
    /// be watched any more, in no particular order.
    pub fn netpoll_clear_reg(&mut self) -> (forget: Vec<i32>)
        ensures
            final(self).pfd == old(self).pfd,
            final(self).reg@ == Map::<i32, (usize, u32)>::empty(),
            old(self).pfd >= 0 ==> forget@.to_set() == old(self).reg@.dom()
                && forget@.no_duplicates(),
            old(self).pfd < 0 ==> forget@ == Seq::<i32>::empty(),
    {
        let mut forget: Vec<i32> = Vec::new();
        if self.pfd >= 0 {
            let keys = self.reg.keys();
            let ghost all = vstd::std_specs::iter::IteratorSpec::remaining(&keys).unref();
            for fd in it: keys
                invariant
                    it.seq().unref() == all,
                    forget@ == all.take(it.index()),
            {
                let ghost i = it.index();
                forget.push(*fd);
                assert(all.take(i).push(*fd) =~= all.take(i + 1));
            }
            assert(forget@ =~= all);
        }
        self.reg.clear();
        forget
    }

    /// Takes the descriptors that the system reported as ready.  Gives back the
    /// goroutines that waited for them, and the descriptors that are not to be
    /// watched any more.
    pub fn netpoll_wait(&mut self, fds: &Vec<i32>) -> (r: (Vec<usize>, Vec<i32>))
        ensures
            final(self).pfd == old(self).pfd,
            old(self).pfd < 0 ==> final(self).reg@ == old(self).reg@ && r.0@ == Seq::<usize>::empty()
                && r.1@ == Seq::<i32>::empty(),
            old(self).pfd >= 0 ==> (Collected {
                reg: final(self).reg@,
                ready: r.0@,
                forget: r.1@,
            }) == collected(old(self).reg@, fds@, fds@.len()),
    {
        let mut ready: Vec<usize> = Vec::new();
        let mut forget: Vec<i32> = Vec::new();
        if self.pfd < 0 {
            return (ready, forget);
        }
        let mut i: usize = 0;
        while i < fds.len()
            invariant
                i <= fds@.len(),
                self.pfd == old(self).pfd,
                (Collected { reg: self.reg@, ready: ready@, forget: forget@ }) == collected(
                    old(self).reg@,
                    fds@,
                    i as nat,
                ),
            decreases fds@.len() - i,
        {
            let fd: i32 = fds[i];
            let ghost before = self.reg@;
            match self.reg.remove(&fd) {
                Some((gp, _)) => {
                    ready.push(gp);
                    forget.push(fd);
                    assert(self.reg@ =~= before.remove(fd));
                },
                None => {
                    assert(self.reg@ =~= before);
                },
            }
            i = i + 1;
        }
        (ready, forget)
    }
}

/// The bits with which the system's poller is told what to watch.
#[derive(Copy, Clone, Debug, PartialEq, Eq, Structural)]
pub struct PollBits {
    pub oneshot: u32,
    pub input: u32,
    pub output: u32,
}

/// What the poller is told to watch for `mode`, once.
pub fn poll_events(mode: u32, bits: PollBits) -> (e: u32)
    ensures
        e == (match (mode & POLL_READ != 0, mode & POLL_WRITE != 0) {
            (false, false) => bits.oneshot,
            (true, false) => bits.oneshot | bits.input,
            (false, true) => bits.oneshot | bits.output,
            (true, true) => bits.oneshot | bits.input | bits.output,
        }),
{
    let mut e: u32 = bits.oneshot;
    if mode & POLL_READ != 0 {
        e = e | bits.input;
    }
    if mode & POLL_WRITE != 0 {
        e = e | bits.output;
    }
    e
}

/// A span of time in milliseconds as seconds and nanoseconds; a negative one is
/// without end.
pub fn poll_timespec(timeout_ms: i32) -> (t: Option<(i64, i64)>)
    ensures
        timeout_ms < 0 ==> t is None,
        timeout_ms >= 0 ==> t == Some(
            ((timeout_ms / 1000) as i64, ((timeout_ms % 1000) * 1_000_000) as i64),
        ),
{
    if timeout_ms < 0 {
        None
    } else {
        Some(((timeout_ms / 1000) as i64, ((timeout_ms % 1000) * 1_000_000) as i64))
    }
}

/// A span of time in milliseconds as the completion port takes it.
pub fn iocp_timeout(timeout_ms: i32) -> (t: u32)
    ensures
        t == (if timeout_ms < 0 {
            u32::MAX as int
        } else {
            timeout_ms as int
        }),
{
    if timeout_ms < 0 {
        u32::MAX
    } else {
        timeout_ms as u32
    }
}

/// An operation that the system completes by itself.
#[derive(Copy, Clone, Debug, PartialEq, Eq, Structural)]
pub struct IocpOp {
    /// The goroutine that waits for it.
    pub gp: usize,
    /// How much was transferred.
    pub bytes_transferred: u32,
    /// How it went.
    pub ntstatus: u32,
}

/// A report that an operation is complete.
#[derive(Copy, Clone, Debug, PartialEq, Eq, Structural)]
pub struct IocpEntry {
    /// The operation; none where the report is not about one.
    pub op: Option<usize>,
    pub bytes_transferred: u32,
    pub internal: u64,
}

/// The operations after the first `n` reports.
pub open spec fn completed(ops: Seq<IocpOp>, entries: Seq<IocpEntry>, n: nat) -> Seq<IocpOp>
    decreases n,
{
    if n == 0 {
        ops
    } else {
        let s = completed(ops, entries, (n - 1) as nat);
        let e = entries[n - 1];
        match e.op {
            None => s,
            Some(i) => s.update(
                i as int,
                IocpOp {
                    bytes_transferred: e.bytes_transferred,
                    ntstatus: e.internal as u32,
                    ..s[i as int]
                },
            ),
        }
    }
}

/// The goroutines that the first `n` reports make ready.
pub open spec fn completing(ops: Seq<IocpOp>, entries: Seq<IocpEntry>, n: nat) -> Seq<usize>
    decreases n,
{
    if n == 0 {
        Seq::empty()
    } else {
        let s = completing(ops, entries, (n - 1) as nat);
        match entries[n - 1].op {
            None => s,
            Some(i) => s.push(ops[i as int].gp),
        }
    }
}

/// Notes which operations are complete.  Gives back the goroutines that waited
/// for them.
pub fn iocp_collect(ops: &mut Vec<IocpOp>, entries: &Vec<IocpEntry>) -> (ready: Vec<usize>)
    requires
        forall|i: int|
            0 <= i < entries@.len() && (#[trigger] entries@[i]).op is Some ==> entries@[i].op->0
                < old(ops)@.len(),
    ensures
        final(ops)@ == completed(old(ops)@, entries@, entries@.len()),
        ready@ == completing(old(ops)@, entries@, entries@.len()),
{
    let mut ready: Vec<usize> = Vec::new();
    let mut k: usize = 0;
    while k < entries.len()
        invariant
            k <= entries@.len(),
            forall|i: int|
                0 <= i < entries@.len() && (#[trigger] entries@[i]).op is Some
                    ==> entries@[i].op->0 < old(ops)@.len(),
            ops@.len() == old(ops)@.len(),
            forall|i: int| 0 <= i < ops@.len() ==> (#[trigger] ops@[i]).gp == old(ops)@[i].gp,
            ops@ == completed(old(ops)@, entries@, k as nat),
            ready@ == completing(old(ops)@, entries@, k as nat),
        decreases entries@.len() - k,
    {
        let e: IocpEntry = entries[k];
        if let Some(i) = e.op {
            ops[i].bytes_transferred = e.bytes_transferred;
            ops[i].ntstatus = #[verifier::truncate] (e.internal as u32);
            ready.push(ops[i].gp);
        }
        k = k + 1;
    }
    ready
}

proof fn lemma_collected(reg: Map<i32, (usize, u32)>, fds: Seq<i32>, n: nat)
    requires
        n <= fds.len(),
    ensures
        forall|fd: i32| #[trigger]
            collected(reg, fds, n).reg.contains_key(fd) <==> reg.contains_key(fd) && !fds.take(
                n as int,
            ).contains(fd),
        forall|fd: i32| #[trigger]
            collected(reg, fds, n).reg.contains_key(fd) ==> collected(reg, fds, n).reg[fd]
                == reg[fd],
    decreases n,
{
    if n > 0 {
        lemma_collected(reg, fds, (n - 1) as nat);
        let a = fds.take(n - 1);
        let b = fds.take(n as int);
        assert(b =~= a.push(fds[n - 1]));
        assert forall|fd: i32| #[trigger] b.contains(fd) <==> a.contains(fd) || fd == fds[n - 1] by {
            if a.contains(fd) {
                assert(b[a.index_of(fd)] == fd);
            }
            if fd == fds[n - 1] {
                assert(b[n - 1] == fd);
            }
            if b.contains(fd) {
                let i = b.index_of(fd);
                if i < n - 1 {
                    assert(a[i] == fd);
                }
            }
        }
        let c = collected(reg, fds, (n - 1) as nat).reg;
        let d = collected(reg, fds, n).reg;
        assert forall|fd: i32| #[trigger] d.contains_key(fd) <==> reg.contains_key(fd)
            && !b.contains(fd) by {
            assert(c.contains_key(fd) <==> reg.contains_key(fd) && !a.contains(fd));
        }
        assert forall|fd: i32| #[trigger] d.contains_key(fd) implies d[fd] == reg[fd] by {
            assert(c.contains_key(fd));
        }
    } else {
        assert(fds.take(0) =~= Seq::empty());
    }
}

/// A registration is good for one report: after it, and until it is made anew,
/// the descriptor wakes nobody; the others stand as they were.
pub proof fn report_ends_registration(reg: Map<i32, (usize, u32)>, fds: Seq<i32>, fd: i32)
    ensures
        fds.contains(fd) ==> !collected(reg, fds, fds.len()).reg.contains_key(fd),
        !fds.contains(fd) && reg.contains_key(fd) ==> collected(
            reg,
            fds,
            fds.len(),
        ).reg.contains_key(fd) && collected(reg, fds, fds.len()).reg[fd] == reg[fd],
{
    lemma_collected(reg, fds, fds.len());
    assert(fds.take(fds.len() as int) =~= fds);
}

proof fn lemma_found(reg: Map<i32, (usize, u32)>, fds: Seq<i32>, n: nat, i: int)
    requires
        0 <= i < n <= fds.len(),
        reg.contains_key(fds[i]),
    ensures
        collected(reg, fds, n).ready.contains(reg[fds[i]].0),
    decreases n,
{
    let c = collected(reg, fds, (n - 1) as nat);
    lemma_collected(reg, fds, (n - 1) as nat);
    let d = collected(reg, fds, n);
    let fd = fds[i];
    let a = fds.take(n - 1);
    if a.contains(fd) {
        let j = a.index_of(fd);
        lemma_found(reg, fds, (n - 1) as nat, j);
        let k = c.ready.index_of(reg[fd].0);
        assert(d.ready[k] == reg[fd].0);
    } else {
        assert(i == n - 1) by {
            if i < n - 1 {
                assert(a[i] == fd);
            }
        }
        assert(d.ready[c.ready.len() as int] == reg[fd].0);
    }
}

/// A goroutine whose descriptor is reported as ready is among those to be made
/// ready.
pub proof fn reported_goroutine_is_found(reg: Map<i32, (usize, u32)>, fds: Seq<i32>, i: int)
    requires
        0 <= i < fds.len(),
        reg.contains_key(fds[i]),
    ensures
        collected(reg, fds, fds.len()).ready.contains(reg[fds[i]].0),
{
    lemma_found(reg, fds, fds.len(), i);
}

/// Taking ready descriptors out gives back each that somebody waits for, once, in
/// the order of the report, and for each who waits for it.
pub proof fn each_report_is_heard_once(reg: Map<i32, (usize, u32)>, fds: Seq<i32>, n: nat)
    requires
        n <= fds.len(),
    ensures
        ({
            let c = collected(reg, fds, n);
            &&& c.ready.len() == c.forget.len()
            &&& forall|k: int|
                0 <= k < c.forget.len() ==> reg.contains_key(#[trigger] c.forget[k]) && c.ready[k]
                    == reg[c.forget[k]].0 && fds.take(n as int).contains(c.forget[k])
            &&& c.forget.no_duplicates()
            &&& forall|i: int|
                0 <= i < n && reg.contains_key(#[trigger] fds[i]) ==> c.forget.contains(fds[i])
        }),
    decreases n,
{
    if n > 0 {
        let k = (n - 1) as nat;
        each_report_is_heard_once(reg, fds, k);
        lemma_collected(reg, fds, k);
        let a = collected(reg, fds, k);
        let c = collected(reg, fds, n);
        let fd = fds[k as int];
        let s = fds.take(k as int);
        let t = fds.take(n as int);
        assert(t[k as int] == fd);
        assert forall|x: i32| #[trigger] s.contains(x) implies t.contains(x) by {
            assert(t[s.index_of(x)] == x);
        }
        if a.reg.contains_key(fd) {
            assert(c.forget == a.forget.push(fd));
            assert(!a.forget.contains(fd)) by {
                if a.forget.contains(fd) {
                    let j = a.forget.index_of(fd);
                    assert(s.contains(a.forget[j]));
                }
            }
            assert(t.contains(fd));
            assert forall|j: int| 0 <= j < c.forget.len() implies reg.contains_key(
                #[trigger] c.forget[j],
            ) && c.ready[j] == reg[c.forget[j]].0 && t.contains(c.forget[j]) by {
                if j < a.forget.len() {
                    assert(c.forget[j] == a.forget[j]);
                    assert(s.contains(a.forget[j]));
                }
            }
            assert forall|i: int|
                0 <= i < n && reg.contains_key(#[trigger] fds[i]) implies c.forget.contains(
                fds[i],
            ) by {
                if i < k {
                    let j = a.forget.index_of(fds[i]);
                    assert(c.forget[j] == fds[i]);
                } else {
                    assert(c.forget[a.forget.len() as int] == fd);
                }
            }
        } else {
            assert forall|i: int|
                0 <= i < n && reg.contains_key(#[trigger] fds[i]) implies c.forget.contains(
                fds[i],
            ) by {
                if i == k {
                    assert(s.contains(fd));
                    let j = s.index_of(fd);
                    assert(fds[j] == fd);
                    assert(reg.contains_key(fds[j]));
                }
            }
            assert forall|j: int| 0 <= j < c.forget.len() implies reg.contains_key(
                #[trigger] c.forget[j],
            ) && c.ready[j] == reg[c.forget[j]].0 && t.contains(c.forget[j]) by {
                assert(s.contains(a.forget[j]));
            }
        }
    }
}

/// Of descriptors that differ, those that somebody waits for are given back in the
/// order of the report.
pub proof fn reports_are_heard_in_order(reg: Map<i32, (usize, u32)>, fds: Seq<i32>, n: nat)
    requires
        n <= fds.len(),
        fds.no_duplicates(),
    ensures
        collected(reg, fds, n).forget == fds.take(n as int).filter(|fd: i32| reg.contains_key(fd)),
    decreases n,
{
    let f = |fd: i32| reg.contains_key(fd);
    reveal(Seq::filter);
    if n > 0 {
        let k = (n - 1) as nat;
        reports_are_heard_in_order(reg, fds, k);
        lemma_collected(reg, fds, k);
        let t = fds.take(n as int);
        assert(t.drop_last() =~= fds.take(k as int));
        assert(t.last() == fds[k as int]);
        assert(!fds.take(k as int).contains(fds[k as int])) by {
            if fds.take(k as int).contains(fds[k as int]) {
                let j = fds.take(k as int).index_of(fds[k as int]);
                assert(fds[j] == fds[k as int]);
            }
        }
    } else {
        assert(fds.take(0).filter(f) =~= Seq::<i32>::empty());
    }
}

/// An operation is left as its last report says, and one without a report as it
/// was; who waits for it never changes.
pub proof fn an_operation_ends_as_last_reported(
    ops: Seq<IocpOp>,
    entries: Seq<IocpEntry>,
    n: nat,
    i: usize,
    k: int,
)
    requires
        n <= entries.len(),
        i < ops.len(),
        0 <= k < n,
        forall|j: int|
            0 <= j < entries.len() && (#[trigger] entries[j]).op is Some ==> entries[j].op->0
                < ops.len(),
        forall|j: int| k < j < n ==> (#[trigger] entries[j]).op != Some(i),
    ensures
        completed(ops, entries, n).len() == ops.len(),
        completed(ops, entries, n)[i as int].gp == ops[i as int].gp,
        entries[k].op == Some(i) ==> completed(ops, entries, n)[i as int].bytes_transferred
            == entries[k].bytes_transferred && completed(ops, entries, n)[i as int].ntstatus
            == entries[k].internal as u32,
        (forall|j: int| 0 <= j < n ==> (#[trigger] entries[j]).op != Some(i)) ==> completed(
            ops,
            entries,
            n,
        )[i as int] == ops[i as int],
    decreases n,
{
    lemma_completed_keeps(ops, entries, (n - 1) as nat);
    if k < n - 1 {
        an_operation_ends_as_last_reported(ops, entries, (n - 1) as nat, i, k);
    } else if forall|j: int| 0 <= j < n ==> (#[trigger] entries[j]).op != Some(i) {
        if n > 1 {
            an_operation_ends_as_last_reported(ops, entries, (n - 1) as nat, i, n - 2);
        } else {
            assert(completed(ops, entries, 0) == ops);
        }
    }
}

proof fn lemma_completed_keeps(ops: Seq<IocpOp>, entries: Seq<IocpEntry>, n: nat)
    requires
        n <= entries.len(),
        forall|j: int|
            0 <= j < entries.len() && (#[trigger] entries[j]).op is Some ==> entries[j].op->0
                < ops.len(),
    ensures
        completed(ops, entries, n).len() == ops.len(),
        forall|i: int|
            0 <= i < ops.len() ==> (#[trigger] completed(ops, entries, n)[i]).gp == ops[i].gp,
    decreases n,
{
    if n > 0 {
        lemma_completed_keeps(ops, entries, (n - 1) as nat);
    }
}

/// Every report about an operation makes who waits for it ready, in the order of
/// the reports; a report about none makes nobody ready.
pub proof fn every_completion_wakes(ops: Seq<IocpOp>, entries: Seq<IocpEntry>, n: nat)
    requires
        n <= entries.len(),
    ensures
        (forall|k: int| 0 <= k < n ==> (#[trigger] entries[k]).op is Some) ==> completing(
            ops,
            entries,
            n,
        ) == Seq::new(n, |k: int| ops[entries[k].op->0 as int].gp),
        (forall|k: int| 0 <= k < n ==> (#[trigger] entries[k]).op is None) ==> completing(
            ops,
            entries,
            n,
        ).len() == 0,
        completing(ops, entries, n).len() <= n,
        forall|k: int|
            0 <= k < n && (#[trigger] entries[k]).op is Some ==> completing(
                ops,
                entries,
                n,
            ).contains(ops[entries[k].op->0 as int].gp),
    decreases n,
{
    if n > 0 {
        let m = (n - 1) as nat;
        every_completion_wakes(ops, entries, m);
        let a = completing(ops, entries, m);
        let b = completing(ops, entries, n);
        assert forall|k: int| 0 <= k < n && (#[trigger] entries[k]).op is Some implies b.contains(
            ops[entries[k].op->0 as int].gp,
        ) by {
            if k < m {
                let j = a.index_of(ops[entries[k].op->0 as int].gp);
                assert(b[j] == a[j]);
            } else {
                assert(b[a.len() as int] == ops[entries[k].op->0 as int].gp);
            }
        }
        if forall|k: int| 0 <= k < n ==> (#[trigger] entries[k]).op is Some {
            assert(b =~= Seq::new(n, |k: int| ops[entries[k].op->0 as int].gp));
        }
    }
}

} // verus!
