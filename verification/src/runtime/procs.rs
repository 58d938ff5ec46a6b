//! Setting a scheduler up, and changing how many processors it has.

use vstd::prelude::*;

use super::g::{Stack, G, GRUNNABLE, STACK_GUARD};
use super::m::{g0_of, new_g0, M};
use super::p::{GlobalRunQueue, P, PView, PRUNNING};
use super::park::Ready;
use super::run::Entry;
use super::sched::{lemma_last_wanted, lemma_same_spare, opt_below, Rt, RtView};

verus! {

/// The most processors that can be asked for.
pub const MAX_PROCS: usize = 256;

/// Settings that hold for the whole life of a scheduler.
#[derive(Copy, Clone, Debug, PartialEq, Eq, Structural)]
pub struct Config {
    /// Descriptors are not used again.
    pub gpool_off: bool,
    /// Contexts are checked before they are resumed.
    pub debug: bool,
    /// Size of a new goroutine's stack.
    pub stack_bytes: u64,
}

/// Does the setting, if it is given, say that descriptors are not used again?
pub fn gpool_off(setting: Option<&str>) -> (off: bool)
    ensures
        off == (setting is Some && setting->0@ == seq!['1']),
{
    match setting {
        None => false,
        Some(s) => {
            let off: bool = s.unicode_len() == 1 && s.get_char(0) == '1';
            assert(off ==> s@ =~= seq!['1']);
            off
        },
    }
}

/// The character is a decimal digit.
pub open spec fn is_digit(c: char) -> bool {
    '0' <= c <= '9'
}

/// The number that a string of digits writes in decimal.
pub open spec fn decimal(s: Seq<char>) -> nat
    decreases s.len(),
{
    if s.len() == 0 {
        0
    } else {
        decimal(s.drop_last()) * 10 + (s.last() as nat - '0' as nat) as nat
    }
}

/// The string without a leading plus sign.
pub open spec fn unsigned_part(s: Seq<char>) -> Seq<char> {
    if s.len() > 0 && s[0] == '+' {
        s.skip(1)
    } else {
        s
    }
}

/// The number of processors that a setting asks for: a decimal number from 1 to
/// 256, perhaps with a plus sign; anything else asks for nothing.
pub open spec fn asked_procs(s: Seq<char>) -> Option<nat> {
    let d = unsigned_part(s);
    if d.len() > 0 && (forall|i: int| 0 <= i < d.len() ==> is_digit(#[trigger] d[i])) && 1
        <= decimal(d) <= 256 {
        Some(decimal(d))
    } else {
        None
    }
}

/// Reads the number of processors that a setting asks for.
fn parse_procs(s: &str) -> (n: Option<i32>)
    ensures
        n is Some <==> asked_procs(s@) is Some,
        n is Some ==> n->0 == asked_procs(s@)->0,
{
    let len: usize = s.unicode_len();
    let mut i: usize = 0;
    if len > 0 && s.get_char(0) == '+' {
        i = 1;
    }
    let ghost d = unsigned_part(s@);
    let first: usize = i;
    assert(d.len() == len - first);
    assert forall|k: int| first <= k < len implies s@[k] == d[k - first] by {}
    if i == len {
        return None;
    }
    let mut acc: u32 = 0;
    assert(d.take(0) =~= Seq::empty());
    while i < len
        invariant
            len == s@.len(),
            d == unsigned_part(s@),
            first <= i <= len,
            d.len() == len - first,
            d.len() > 0,
            forall|k: int| first <= k < len ==> s@[k] == d[k - first],
            forall|k: int| 0 <= k < i - first ==> is_digit(#[trigger] d[k]),
            acc == (if decimal(d.take(i - first)) <= 256 {
                decimal(d.take(i - first)) as int
            } else {
                257
            }),
        decreases len - i,
    {
        let c: char = s.get_char(i);
        if !('0' <= c && c <= '9') {
            assert(!is_digit(d[i - first]));
            return None;
        }
        let next: u32 = acc * 10 + (c as u32 - '0' as u32);
        assert(d.take(i + 1 - first).drop_last() =~= d.take(i - first));
        acc = if next <= 256 {
            next
        } else {
            257
        };
        i = i + 1;
    }
    assert(d.take(len - first) =~= d);
    if 1 <= acc && acc <= 256 {
        Some(acc as i32)
    } else {
        None
    }
}

/// How many processors a scheduler starts with: what the setting asks for, or
/// else the number of processors of the machine.
pub open spec fn procs_at_start(nprocs: i32, setting: Option<Seq<char>>) -> int {
    if setting is Some && asked_procs(setting->0) is Some {
        asked_procs(setting->0)->0 as int
    } else {
        nprocs as int
    }
}

/// Decides how many processors a scheduler starts with.
pub fn wanted_procs(nprocs: i32, setting: Option<&str>) -> (n: i32)
    requires
        nprocs >= 1,
    ensures
        n == procs_at_start(
            nprocs,
            match setting {
                Some(s) => Some(s@),
                None => None,
            },
        ),
        n >= 1,
{
    match setting {
        None => nprocs,
        Some(s) => match parse_procs(s) {
            Some(n) => n,
            None => nprocs,
        },
    }
}

/// The stacks can serve schedulers of new threads.
pub open spec fn all_usable(stacks: Seq<Stack>) -> bool {
    forall|i: int| 0 <= i < stacks.len() ==> (#[trigger] stacks[i]).lo + STACK_GUARD <= u64::MAX
}

impl RtView {
    /// The state with `k` more processors, numbered from `id` on, each running
    /// on a new thread of its own.
    pub open spec fn grown(self, id: int, k: int, stacks: Seq<Stack>) -> RtView {
        let ng = self.gs.len() as int;
        let nm = self.ms.len() as int;
        let np = self.ps.len() as int;
        RtView {
            gs: self.gs + Seq::new(
                k as nat,
                |i: int| g0_of((ng + i) as usize, stacks[i], (nm + i) as usize),
            ),
            ms: self.ms + Seq::new(
                k as nat,
                |i: int|
                    M {
                        p: Some((np + i) as usize),
                        ..M::fresh((self.next_mid + i) as i64, (ng + i) as usize)
                    },
            ),
            ps: self.ps + Seq::new(
                k as nat,
                |i: int|
                    PView {
                        status: PRUNNING,
                        m: Some((nm + i) as usize),
                        ..PView::fresh((id + i) as i32)
                    },
            ),
            next_mid: (self.next_mid + k) as i64,
            ..self
        }
    }

    /// How many processors a change to `n` adds.
    pub open spec fn missing(self, n: int) -> int {
        if clamped(n) > self.gomaxprocs {
            clamped(n) - self.gomaxprocs
        } else {
            0
        }
    }

    /// The state after `n` processors were asked for.  More of them come with
    /// threads.  Where fewer are asked for, those above the number stay, but are
    /// no longer wanted: once idle, they stay idle until the number rises.
    pub open spec fn resized(self, n: int, stacks: Seq<Stack>) -> RtView {
        let v = if self.missing(n) > 0 {
            self.grown(self.gomaxprocs as int, self.missing(n), stacks)
        } else {
            self
        };
        RtView { gomaxprocs: clamped(n) as i32, ..v }
    }

    /// A scheduler without processors and threads.
    pub open spec fn blank(procs: i32, config: Config) -> RtView {
        RtView {
            gs: Seq::empty(),
            ms: Seq::empty(),
            ps: Seq::empty(),
            global: Seq::empty(),
            idle_p: Seq::empty(),
            idle_m: Seq::empty(),
            allg: Seq::empty(),
            g_free: Seq::empty(),
            nmspinning: 0,
            gomaxprocs: procs,
            shutdown: false,
            gpool_off: config.gpool_off,
            debug: config.debug,
            next_goid: 1,
            next_mid: 1,
            stack_bytes: config.stack_bytes,
        }
    }
}

/// The number brought into the range that can be asked for.
pub open spec fn clamped(n: int) -> int {
    if n < 1 {
        1
    } else if n > 256 {
        256
    } else {
        n
    }
}

impl Rt {
    /// Makes a thread on the given stack and ties it to processor `p`.
    pub fn spawn_m(&mut self, p: usize, stack: Stack) -> (m: usize)
        requires
            old(self).wf(),
            p < old(self)@.ps.len(),
            stack.lo + STACK_GUARD <= u64::MAX,
            old(self)@.next_mid < i64::MAX,
        ensures
            final(self).wf(),
            m == old(self)@.ms.len(),
            ({
                let v = old(self)@;
                let g0 = v.gs.len() as usize;
                final(self)@ == (RtView {
                    gs: v.gs.push(g0_of(g0, stack, m)),
                    ms: v.ms.push(M { p: Some(p), ..M::fresh(v.next_mid, g0) }),
                    next_mid: (v.next_mid + 1) as i64,
                    ..v.with_p(
                        p as int,
                        PView { status: PRUNNING, m: Some(m), ..v.ps[p as int] },
                    )
                })
            }),
    {
        let g0: usize = self.gs.len();
        let m: usize = self.ms.len();
        self.gs.push(new_g0(g0, stack, m));
        let mut mm: M = M::new(self.next_mid, g0);
        self.next_mid = self.next_mid + 1;
        mm.p = Some(p);
        self.ms.push(mm);
        self.ps[p].m = Some(m);
        self.ps[p].status = PRUNNING;
        proof {
            let v = old(self)@;
            let w = v.with_p(p as int, PView { status: PRUNNING, m: Some(m), ..v.ps[p as int] });
            assert(self@.ps =~= w.ps);
        }
        m
    }

    /// Adds `k` processors, numbered from `id` on, each with a thread.
    fn add_procs(&mut self, id: i32, k: usize, stacks: &Vec<Stack>)
        requires
            old(self).wf(),
            id >= 0,
            id + k <= i32::MAX,
            old(self)@.ps.len() + k <= i32::MAX,
            old(self)@.next_mid + k <= i64::MAX,
            k <= stacks@.len(),
            all_usable(stacks@),
        ensures
            final(self).wf(),
            final(self)@ == old(self)@.grown(id as int, k as int, stacks@),
    {
        let mut i: usize = 0;
        assert(self@ =~= self@.grown(id as int, 0, stacks@));
        while i < k
            invariant
                self.wf(),
                i <= k,
                id >= 0,
                id + k <= i32::MAX,
                old(self)@.ps.len() + k <= i32::MAX,
                old(self)@.next_mid + k <= i64::MAX,
                k <= stacks@.len(),
                all_usable(stacks@),
                self@ == old(self)@.grown(id as int, i as int, stacks@),
            decreases k - i,
        {
            let ghost v = self@;
            let p: usize = self.ps.len();
            self.ps.push(P::new(id + i as i32));
            proof {
                assert(self@.ps =~= v.ps.push(PView::fresh((id + i) as i32)));
            }
            let m: usize = self.spawn_m(p, stacks[i]);
            i = i + 1;
            proof {
                let w = old(self)@.grown(id as int, i as int, stacks@);
                assert(self@.ps =~= w.ps);
                assert(self@.ms =~= w.ms);
                assert(self@.gs =~= w.gs);
            }
        }
    }

    /// Gives back the stack of a thread that has ended, to be freed.
    pub fn drop_m(&self, m: usize) -> (stack: Stack)
        requires
            self.wf(),
            m < self@.ms.len(),
        ensures
            stack == self@.gs[self@.ms[m as int].g0 as int].stack,
    {
        assert(super::sched::m_names(self@.ms[m as int], self@.gs.len(), self@.ps.len()));
        self.gs[self.ms[m].g0].stack
    }
}

/// Makes a scheduler with `procs` processors, each running on a thread, whose
/// stack comes from `g0_stacks`.
pub fn schedinit(procs: i32, g0_stacks: &Vec<Stack>, config: Config) -> (rt: Rt)
    requires
        procs >= 1,
        procs <= g0_stacks@.len(),
        all_usable(g0_stacks@),
    ensures
        rt.wf(),
        rt@ == RtView::blank(procs, config).grown(0, procs as int, g0_stacks@),
{
    let mut rt: Rt = Rt {
        gs: Vec::new(),
        ms: Vec::new(),
        ps: Vec::new(),
        global_run_q: GlobalRunQueue::new(),
        idle_p: Vec::new(),
        idle_m: Vec::new(),
        allg: Vec::new(),
        g_free: Vec::new(),
        nmspinning: 0,
        gomaxprocs: procs,
        shutdown: false,
        gpool_off: config.gpool_off,
        debug: config.debug,
        next_goid: 1,
        next_mid: 1,
        stack_bytes: config.stack_bytes,
    };
    assert(rt@ =~= RtView::blank(procs, config));
    rt.add_procs(0, procs as usize, g0_stacks);
    rt
}

/// How many processors are wanted.
pub fn gomaxprocs(rt: &Rt) -> (n: usize)
    requires
        rt.wf(),
    ensures
        n == rt@.gomaxprocs,
{
    rt.gomaxprocs as usize
}

/// How many processors a change to `n` will add.
pub fn procs_to_add(rt: &Rt, n: usize) -> (k: usize)
    requires
        rt.wf(),
    ensures
        k == rt@.missing(n as int),
{
    let n: usize = if n < 1 {
        1
    } else if n > MAX_PROCS {
        MAX_PROCS
    } else {
        n
    };
    if n > rt.gomaxprocs as usize {
        n - rt.gomaxprocs as usize
    } else {
        0
    }
}

/// Changes how many processors are wanted, from 1 to 256, and gives back how
/// many were.
///
/// More processors come with threads of their own.  Where fewer are wanted,
/// those that exist stay, but no idle thread is brought to work with one above
/// the number, until the number rises again.
pub fn set_gomaxprocs(rt: &mut Rt, n: usize, g0_stacks: &Vec<Stack>) -> (before: usize)
    requires
        old(rt).wf(),
        old(rt)@.missing(n as int) <= g0_stacks@.len(),
        all_usable(g0_stacks@),
        old(rt)@.missing(n as int) > 0 ==> old(rt)@.ps.len() + old(rt)@.missing(n as int)
            <= i32::MAX && old(rt)@.next_mid + old(rt)@.missing(n as int) <= i64::MAX,
    ensures
        final(rt).wf(),
        before == old(rt)@.gomaxprocs,
        final(rt)@ == old(rt)@.resized(n as int, g0_stacks@),
        final(rt)@.gomaxprocs == clamped(n as int),
{
    let k: usize = procs_to_add(rt, n);
    let n: i32 = if n < 1 {
        1
    } else if n > MAX_PROCS {
        256
    } else {
        n as i32
    };
    let before: i32 = rt.gomaxprocs;
    if n > before {
        rt.add_procs(before, k, g0_stacks);
    }
    let ghost v = rt@;
    rt.gomaxprocs = n;
    assert(rt@.ps =~= v.ps);
    before as usize
}

/// The number of processors that was set, brought into range, is the one that
/// is read back, whether it has risen or fallen.
pub proof fn set_then_get(v: RtView, n: int, stacks: Seq<Stack>)
    ensures
        v.resized(n, stacks).gomaxprocs == clamped(n),
        n < 1 ==> v.resized(n, stacks).gomaxprocs == 1,
        1 <= n <= 256 ==> v.resized(n, stacks).gomaxprocs == n,
        n > 256 ==> v.resized(n, stacks).gomaxprocs == 256,
{
}

/// A processor that is not wanted is left alone by whatever looks for an idle
/// processor: it stays with the thread that has it or without one, and it stays
/// idle if it is.
pub proof fn unwanted_processors_are_left_alone(v: RtView, p: int)
    requires
        v.names(),
        0 <= p < v.ps.len(),
        !v.wanted(p),
    ensures
        v.started(None).ps[p] == v.ps[p],
        v.started(None).idle_p.contains(p as usize) <==> v.idle_p.contains(p as usize),
        forall|m: int|
            0 <= m < v.ms.len() && (#[trigger] v.started(None).ms[m]).p == Some(p as usize)
                ==> v.ms[m].p == Some(p as usize),
{
    lemma_last_wanted(v, v.idle_p.len());
    let w = v.started(None);
    if v.idle_m.len() > 0 && v.spare() is Some {
        let at = v.spare()->0;
        assert(v.idle_p[at] != p);
        assert(v.idle_m.last() == v.idle_m[v.idle_m.len() - 1]);
        if v.idle_p.contains(p as usize) {
            let i = v.idle_p.index_of(p as usize);
            assert(v.idle_p[i] == p as usize);
            if i < at {
                assert(w.idle_p[i] == p as usize);
            } else {
                assert(w.idle_p[i - 1] == p as usize);
            }
        }
        if w.idle_p.contains(p as usize) {
            let i = w.idle_p.index_of(p as usize);
            assert(w.idle_p[i] == p as usize);
            if i < at {
                assert(v.idle_p[i] == p as usize);
            } else {
                assert(v.idle_p[i + 1] == p as usize);
            }
        }
    }
}

/// Where no idle processor is wanted, no thread is brought to work: both idle
/// lists stay as they are, and so does everything else.
pub proof fn only_unwanted_idle_wakes_nobody(v: RtView)
    requires
        forall|i: int| 0 <= i < v.idle_p.len() ==> !v.wanted((#[trigger] v.idle_p[i]) as int),
    ensures
        v.started(None) == v,
{
    lemma_last_wanted(v, v.idle_p.len());
}

/// A goroutine that is made ready recruits no thread for a processor that is not
/// wanted.
pub proof fn ready_recruits_no_surplus(v: RtView, m: Option<usize>, gp: usize, p: int)
    requires
        v.names(),
        opt_below(m, v.ms.len()),
        gp < v.gs.len(),
        0 <= p < v.ps.len(),
        !v.wanted(p),
    ensures
        v.readied(m, gp).ps[p].status == v.ps[p].status,
        v.readied(m, gp).ps[p].m == v.ps[p].m,
        v.readied(m, gp).idle_p.contains(p as usize) <==> v.idle_p.contains(p as usize),
        forall|t: int|
            0 <= t < v.ms.len() && (#[trigger] v.readied(m, gp).ms[t]).p == Some(p as usize)
                ==> v.ms[t].p == Some(p as usize),
{
    if v.gs[gp as int].readiness() == Ready::Readied {
        let x = G { atomicstatus: GRUNNABLE, ..v.gs[gp as int] };
        super::sched::with_g_keeps_names(v, gp as int, x);
        let a = v.with_g(gp as int, x);
        super::park::enqueue_keeps_names(a, m, gp);
        let b = a.enqueued(m, gp);
        assert(b.ps[p].id == v.ps[p].id && b.ps[p].status == v.ps[p].status && b.ps[p].m
            == v.ps[p].m);
        unwanted_processors_are_left_alone(b, p);
    }
}

/// Starting a goroutine recruits no thread for a processor that is not wanted.
pub proof fn spawn_recruits_no_surplus(
    v: RtView,
    ctxt: usize,
    entry: Entry,
    fresh: Option<Stack>,
    p: int,
)
    requires
        v.names(),
        v.gs.len() < usize::MAX,
        0 <= p < v.ps.len(),
        !v.wanted(p),
    ensures
        v.spawned(ctxt, entry, fresh).ps[p] == v.ps[p],
        v.spawned(ctxt, entry, fresh).idle_p.contains(p as usize) <==> v.idle_p.contains(
            p as usize,
        ),
        forall|t: int|
            0 <= t < v.ms.len() && (#[trigger] v.spawned(ctxt, entry, fresh).ms[t]).p == Some(
                p as usize,
            ) ==> v.ms[t].p == Some(p as usize),
{
    unwanted_processors_are_left_alone(v, p);
    let a = v.with_new_g(ctxt, entry, fresh);
    let b = RtView { allg: a.allg.push(v.next_g()), global: a.global.push(v.next_g()), ..a };
    lemma_same_spare(v, b, v.idle_p.len());
    assert(v.spawned(ctxt, entry, fresh).ps == v.started(None).ps);
    assert(v.spawned(ctxt, entry, fresh).ms == v.started(None).ms);
    assert(v.spawned(ctxt, entry, fresh).idle_p == v.started(None).idle_p);
}

/// Lowering the number makes the processors above it unwanted; raising it makes
/// an idle one wanted again, and a sleeping thread is then brought to work.
pub proof fn raising_recruits_again(v: RtView, n: int, stacks: Seq<Stack>, i: int)
    requires
        v.names(),
        0 <= i < v.idle_p.len(),
        v.idle_m.len() > 0,
    ensures
        v.resized(n, stacks).wanted(v.idle_p[i] as int) <==> v.ps[v.idle_p[i] as int].id < clamped(
            n,
        ),
        v.ps[v.idle_p[i] as int].id < clamped(n) ==> ({
            let w = v.resized(n, stacks);
            let t = v.idle_m.last() as int;
            &&& w.spare() is Some
            &&& w.started(None).ms[t].p == Some(w.idle_p[w.spare()->0])
            &&& w.started(None).ms[t].park.flag
            &&& w.started(None).idle_m == v.idle_m.drop_last()
            &&& w.started(None).idle_p == v.idle_p.remove(w.spare()->0)
        }),
{
    let w = v.resized(n, stacks);
    assert(v.idle_p[i] < v.ps.len());
    assert(w.ps[v.idle_p[i] as int] == v.ps[v.idle_p[i] as int]);
    assert(w.idle_p == v.idle_p && w.idle_m == v.idle_m);
    lemma_last_wanted(w, w.idle_p.len());
    let t = v.idle_m.last() as int;
    assert(v.idle_m[v.idle_m.len() - 1] < v.ms.len());
    assert(t < w.ms.len());
}

/// Asking for fewer processors takes none away, nor any thread or goroutine.
pub proof fn fewer_procs_take_nothing_away(v: RtView, n: int, stacks: Seq<Stack>)
    requires
        clamped(n) <= v.gomaxprocs,
    ensures
        v.resized(n, stacks) == (RtView { gomaxprocs: clamped(n) as i32, ..v }),
{
}

/// Asking for more processors adds that many, each on a thread of its own, and
/// changes none that were there.
pub proof fn more_procs_are_added(v: RtView, n: int, stacks: Seq<Stack>)
    requires
        clamped(n) > v.gomaxprocs,
    ensures
        ({
            let w = v.resized(n, stacks);
            let k = clamped(n) - v.gomaxprocs;
            &&& w.ps.len() == v.ps.len() + k
            &&& w.ms.len() == v.ms.len() + k
            &&& w.ps.take(v.ps.len() as int) == v.ps
            &&& w.ms.take(v.ms.len() as int) == v.ms
            &&& w.global == v.global && w.idle_p == v.idle_p && w.idle_m == v.idle_m
        }),
{
    let w = v.resized(n, stacks);
    assert(w.ps.take(v.ps.len() as int) =~= v.ps);
    assert(w.ms.take(v.ms.len() as int) =~= v.ms);
}

/// A fresh scheduler has every processor running on its own thread, nothing
/// queued, and nothing idle.
pub proof fn fresh_scheduler_is_all_running(
    procs: i32,
    config: Config,
    stacks: Seq<Stack>,
    i: int,
)
    requires
        1 <= procs,
        0 <= i < procs,
    ensures
        ({
            let v = RtView::blank(procs, config).grown(0, procs as int, stacks);
            &&& v.ps.len() == procs && v.ms.len() == procs
            &&& v.ps[i].id == i && v.ps[i].status == PRUNNING && v.ps[i].m == Some(i as usize)
            &&& v.ms[i].p == Some(i as usize) && v.ms[i].id == i + 1
            &&& v.ps[i].size() == 0
            &&& v.global.len() == 0 && v.idle_p.len() == 0 && v.idle_m.len() == 0
        }),
{
}

/// A number as it is written in decimal.
pub open spec fn written(n: nat) -> Seq<char>
    decreases n,
{
    if n < 10 {
        seq![('0' as nat + n) as char]
    } else {
        written(n / 10).push(('0' as nat + n % 10) as char)
    }
}

proof fn lemma_written(n: nat)
    ensures
        written(n).len() > 0,
        forall|i: int| 0 <= i < written(n).len() ==> is_digit(#[trigger] written(n)[i]),
        decimal(written(n)) == n,
    decreases n,
{
    if n < 10 {
        let c = ('0' as nat + n) as char;
        assert(written(n).drop_last() =~= Seq::empty());
        assert(decimal(Seq::<char>::empty()) == 0);
        assert(written(n).last() == c);
    } else {
        lemma_written(n / 10);
        let c = ('0' as nat + n % 10) as char;
        assert(written(n).drop_last() =~= written(n / 10));
        assert(written(n).last() == c);
    }
}

/// A setting that writes a number from 1 to 256 asks for that many processors,
/// with a plus sign before it or without; one that writes any other number asks
/// for nothing.
pub proof fn a_written_number_is_read_back(n: nat)
    ensures
        1 <= n <= 256 ==> asked_procs(written(n)) == Some(n) && asked_procs(
            seq!['+'] + written(n),
        ) == Some(n),
        n == 0 || n > 256 ==> asked_procs(written(n)) is None && asked_procs(
            seq!['+'] + written(n),
        ) is None,
{
    lemma_written(n);
    let w = written(n);
    assert(is_digit(w[0]));
    assert(unsigned_part(w) == w);
    assert((seq!['+'] + w).skip(1) =~= w);
}

/// Zeros before a number change nothing.
pub proof fn zeros_in_front_mean_nothing(s: Seq<char>)
    requires
        s.len() > 0,
        s[0] != '+',
    ensures
        asked_procs(seq!['0'] + s) == asked_procs(s),
{
    let z = seq!['0'] + s;
    lemma_zero_in_front(s);
    assert(z.skip(1) =~= s);
    assert(forall|i: int| 0 <= i < s.len() ==> z[i + 1] == s[i]);
    if forall|i: int| 0 <= i < z.len() ==> is_digit(#[trigger] z[i]) {
        assert forall|i: int| 0 <= i < s.len() implies is_digit(#[trigger] s[i]) by {
            assert(is_digit(z[i + 1]));
        }
    }
    if forall|i: int| 0 <= i < s.len() ==> is_digit(#[trigger] s[i]) {
        assert forall|i: int| 0 <= i < z.len() implies is_digit(#[trigger] z[i]) by {
            if i > 0 {
                assert(is_digit(s[i - 1]));
            }
        }
    }
}

proof fn lemma_zero_in_front(s: Seq<char>)
    ensures
        decimal(seq!['0'] + s) == decimal(s),
    decreases s.len(),
{
    let z = seq!['0'] + s;
    if s.len() > 0 {
        lemma_zero_in_front(s.drop_last());
        assert(z.drop_last() =~= seq!['0'] + s.drop_last());
        assert(z.last() == s.last());
    } else {
        assert(z.drop_last() =~= Seq::empty());
        assert(decimal(Seq::<char>::empty()) == 0);
    }
}

/// A setting that is empty, or only a sign, or holds anything but digits behind a
/// sign that it may begin with, asks for nothing; what is asked for is never less
/// than 1 or more than 256.
pub proof fn anything_else_asks_for_nothing(s: Seq<char>, i: int)
    ensures
        s.len() == 0 ==> asked_procs(s) is None,
        s == seq!['+'] ==> asked_procs(s) is None,
        0 <= i < s.len() && !('0' <= s[i] <= '9') && (i > 0 || s[i] != '+') ==> asked_procs(
            s,
        ) is None,
        asked_procs(s) matches Some(n) ==> 1 <= n <= 256,
{
    let d = unsigned_part(s);
    if 0 <= i < s.len() && !('0' <= s[i] <= '9') && (i > 0 || s[i] != '+') {
        if s[0] == '+' {
            assert(d[i - 1] == s[i]);
            assert(!is_digit(d[i - 1]));
        } else {
            assert(!is_digit(d[i]));
        }
    }
}

/// A scheduler starts with as many processors as a setting asks for, and with as
/// many as the machine has if there is no setting or it asks for nothing.
pub proof fn a_scheduler_starts_with_what_is_asked(nprocs: i32, n: nat, s: Seq<char>)
    ensures
        procs_at_start(nprocs, None) == nprocs,
        1 <= n <= 256 ==> procs_at_start(nprocs, Some(written(n))) == n,
        n == 0 || n > 256 ==> procs_at_start(nprocs, Some(written(n))) == nprocs,
        asked_procs(s) is None ==> procs_at_start(nprocs, Some(s)) == nprocs,
{
    a_written_number_is_read_back(n);
}

/// Each processor that is added has a thread of its own, which holds it and whose
/// scheduler runs on a stack of its own; it begins with nothing to run; and all of
/// them are numbered on from those there were.
pub proof fn each_new_processor_has_its_own_thread(v: RtView, n: int, stacks: Seq<Stack>, i: int)
    requires
        v.gomaxprocs >= 1,
        v.gomaxprocs < n <= 256,
        0 <= i < n - v.gomaxprocs,
        v.gs.len() + 256 <= usize::MAX,
        v.ms.len() + 256 <= usize::MAX,
        v.ps.len() + 256 <= usize::MAX,
        v.next_mid >= 1,
        v.next_mid + 256 <= i64::MAX,
        stacks[i].lo + 928 <= u64::MAX,
    ensures
        ({
            let w = v.resized(n, stacks);
            let p = w.ps[v.ps.len() + i];
            let m = w.ms[v.ms.len() + i];
            let g0 = w.gs[v.gs.len() + i];
            &&& p.id == v.gomaxprocs + i && p.status == 1 && p.m == Some(
                (v.ms.len() + i) as usize,
            )
            &&& p.ring.len() == 0 && p.runnext is None
            &&& m.p == Some((v.ps.len() + i) as usize) && m.g0 == v.gs.len() + i && m.id
                == v.next_mid + i
            &&& m.curg is None && !m.spinning && !m.blocked && m.locks == 0
            &&& g0.stack == stacks[i] && g0.m == Some((v.ms.len() + i) as usize) && g0.goid == 0
                && g0.sched.sp == stacks[i].hi
            &&& w.next_mid == v.next_mid + (n - v.gomaxprocs)
            &&& w.gs.len() == v.gs.len() + (n - v.gomaxprocs)
            &&& forall|g: int| 0 <= g < v.gs.len() ==> #[trigger] w.gs[g] == v.gs[g]
            &&& w.allg == v.allg && w.g_free == v.g_free && w.next_goid == v.next_goid
                && w.nmspinning == v.nmspinning && w.shutdown == v.shutdown && w.gpool_off
                == v.gpool_off && w.debug == v.debug && w.stack_bytes == v.stack_bytes
        }),
{
}

/// A scheduler that was just made has no goroutines, gives the number 1 to the
/// first, goes on until it is told to stop, and keeps the settings it was given.
pub proof fn a_scheduler_starts_empty(procs: i32, config: Config, stacks: Seq<Stack>)
    requires
        1 <= procs,
    ensures
        ({
            let v = RtView::blank(procs, config).grown(0, procs as int, stacks);
            &&& v.gomaxprocs == procs
            &&& v.allg.len() == 0 && v.g_free.len() == 0 && v.nmspinning == 0
            &&& v.next_goid == 1 && v.next_mid == procs + 1 && !v.shutdown
            &&& v.gpool_off == config.gpool_off && v.debug == config.debug && v.stack_bytes
                == config.stack_bytes
            &&& v.gs.len() == procs
        }),
{
}

/// What a change of the number adds is what is missing up to the number in range.
pub proof fn only_what_is_missing_is_added(v: RtView, n: int)
    requires
        1 <= v.gomaxprocs,
    ensures
        v.missing(n) >= 0,
        n <= v.gomaxprocs ==> v.missing(n) == 0,
        v.gomaxprocs <= n <= 256 ==> v.missing(n) + v.gomaxprocs == n,
        n > 256 && v.gomaxprocs <= 256 ==> v.missing(n) + v.gomaxprocs == 256,
{
}

} // verus!
