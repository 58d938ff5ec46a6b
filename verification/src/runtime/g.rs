//! The goroutine descriptor and its status word.

use vstd::prelude::*;

verus! {

/// Just allocated; not yet initialised.
pub const GIDLE: u32 = 0;

/// On a run queue; not executing.
pub const GRUNNABLE: u32 = 1;

/// Executing on some M.
pub const GRUNNING: u32 = 2;

/// Inside a system call.
pub const GSYSCALL: u32 = 3;

/// Parked until something makes it ready.
pub const GWAITING: u32 = 4;

/// Finished; the descriptor may be used again.
pub const GDEAD: u32 = 6;

/// Its stack is being moved.
pub const GCOPYSTACK: u32 = 8;

/// Stopped by an asynchronous preemption.
pub const GPREEMPTED: u32 = 9;

/// Flag bit laid over a status while the stack is being scanned.
pub const GSCAN: u32 = 0x1000;

/// Value of `stackguard0` that asks the goroutine to yield.
pub const STACK_PREEMPT: u64 = 0xffff_ffff_ffff_ffff;

/// Bytes kept free between the low end of a stack and its guard.
pub const STACK_GUARD: u64 = 928;

/// The addresses `[lo, hi)` of a stack.
#[derive(Copy, Clone, Debug, PartialEq, Eq, Structural)]
pub struct Stack {
    pub lo: u64,
    pub hi: u64,
}

/// The saved execution context of a goroutine that is not running.
#[derive(Copy, Clone, Debug, PartialEq, Eq)]
pub struct Gobuf {
    /// Stack pointer.
    pub sp: u64,
    /// Program counter.
    pub pc: u64,
    /// The goroutine that owns this context.
    pub g: Option<usize>,
    /// Handle of the closure that the goroutine is to run.
    pub ctxt: Option<usize>,
    /// Return value.
    pub ret: u64,
    /// Link register.
    pub lr: u64,
    /// Frame pointer.
    pub bp: u64,
}

impl Gobuf {
    /// The context with every register zero and no owner.
    pub open spec fn zero() -> Gobuf {
        Gobuf { sp: 0, pc: 0, g: None, ctxt: None, ret: 0, lr: 0, bp: 0 }
    }
}

impl Default for Gobuf {
    fn default() -> (buf: Self)
        ensures
            buf == Gobuf::zero(),
    {
        Gobuf { sp: 0, pc: 0, g: None, ctxt: None, ret: 0, lr: 0, bp: 0 }
    }
}

/// Why a goroutine is parked.
#[derive(Copy, Clone, Debug, PartialEq, Eq, Structural)]
pub enum WaitReason {
    Zero,
    Select,
    ChanReceive,
    ChanSend,
    Semacquire,
    Sleep,
    CondVar,
    IOWait,
}

impl WaitReason {
    /// The text of a reason in traces.
    pub open spec fn text(self) -> Seq<char> {
        match self {
            WaitReason::Zero => ""@,
            WaitReason::Select => "select"@,
            WaitReason::ChanReceive => "chan receive"@,
            WaitReason::ChanSend => "chan send"@,
            WaitReason::Semacquire => "semacquire"@,
            WaitReason::Sleep => "sleep"@,
            WaitReason::CondVar => "condvar wait"@,
            WaitReason::IOWait => "IO wait"@,
        }
    }

    /// The number of a reason in traces.
    pub open spec fn number(self) -> u8 {
        match self {
            WaitReason::Zero => 0,
            WaitReason::Select => 9,
            WaitReason::ChanReceive => 14,
            WaitReason::ChanSend => 15,
            WaitReason::Semacquire => 18,
            WaitReason::Sleep => 19,
            WaitReason::CondVar => 20,
            WaitReason::IOWait => 23,
        }
    }

    /// Describes the reason in words.
    pub fn as_str(self) -> (s: &'static str)
        ensures
            s@ == self.text(),
    {
        match self {
            WaitReason::Zero => "",
            WaitReason::Select => "select",
            WaitReason::ChanReceive => "chan receive",
            WaitReason::ChanSend => "chan send",
            WaitReason::Semacquire => "semacquire",
            WaitReason::Sleep => "sleep",
            WaitReason::CondVar => "condvar wait",
            WaitReason::IOWait => "IO wait",
        }
    }

    /// The reason as the byte that traces store.
    pub fn code(self) -> (n: u8)
        ensures
            n == self.number(),
    {
        match self {
            WaitReason::Zero => 0,
            WaitReason::Select => 9,
            WaitReason::ChanReceive => 14,
            WaitReason::ChanSend => 15,
            WaitReason::Semacquire => 18,
            WaitReason::Sleep => 19,
            WaitReason::CondVar => 20,
            WaitReason::IOWait => 23,
        }
    }
}

impl Default for WaitReason {
    fn default() -> (r: Self)
        ensures
            r == WaitReason::Zero,
    {
        WaitReason::Zero
    }
}

/// A lock that a parking goroutine leaves held, for the scheduler to release
/// once the goroutine is safely parked.
#[derive(Copy, Clone, Debug, PartialEq, Eq, Structural)]
pub struct ParkUnlock {
    /// Identity of the lock.
    pub lock: usize,
}

/// A goroutine descriptor.
#[derive(Copy, Clone, Debug, PartialEq, Eq)]
pub struct G {
    /// The stack it runs on.
    pub stack: Stack,
    /// Stack pointers below this address mean that the stack is running out;
    /// `STACK_PREEMPT` asks for a yield.
    pub stackguard0: u64,
    /// The M that runs it.
    pub m: Option<usize>,
    /// Saved context while it does not run.
    pub sched: Gobuf,
    /// Status word: one of the `G...` constants, perhaps with `GSCAN` set.
    pub atomicstatus: u32,
    /// 1 once a channel operation has claimed the current `select`.
    pub selectdone: u32,
    /// Unique number.
    pub goid: u64,
    /// The sudog that woke it.
    pub param: Option<usize>,
    /// Why it is parked.
    pub waitreason: WaitReason,
    /// It should yield at the next safe point.
    pub preempt: bool,
    /// Lock to release after it has parked.
    pub park_unlock: Option<ParkUnlock>,
    /// The wait group on which it is parked.
    pub waiting_wg: Option<usize>,
}

impl G {
    /// A descriptor as it is right after construction: idle, with the guard
    /// `STACK_GUARD` bytes above the low end of its stack, and its context
    /// naming itself as owner.
    pub open spec fn fresh(id: usize, stack: Stack, goid: u64) -> G {
        G {
            stack,
            stackguard0: (stack.lo + STACK_GUARD) as u64,
            m: None,
            sched: Gobuf { g: Some(id), ..Gobuf::zero() },
            atomicstatus: GIDLE,
            selectdone: 0,
            goid,
            param: None,
            waitreason: WaitReason::Zero,
            preempt: false,
            park_unlock: None,
            waiting_wg: None,
        }
    }

    /// Makes the descriptor that will stand at index `id` of the arena.
    pub fn new(id: usize, stack: Stack, goid: u64) -> (g: G)
        requires
            stack.lo + STACK_GUARD <= u64::MAX,
        ensures
            g == G::fresh(id, stack, goid),
    {
        let mut sched: Gobuf = Gobuf::default();
        sched.g = Some(id);
        G {
            stack,
            stackguard0: stack.lo + STACK_GUARD,
            m: None,
            sched,
            atomicstatus: GIDLE,
            selectdone: 0,
            goid,
            param: None,
            waitreason: WaitReason::Zero,
            preempt: false,
            park_unlock: None,
            waiting_wg: None,
        }
    }

    /// The status with the scan flag taken off.
    pub open spec fn status(self) -> u32 {
        self.atomicstatus & !GSCAN
    }

    /// The stack is being scanned.
    pub open spec fn scanning(self) -> bool {
        self.atomicstatus & GSCAN != 0
    }
}

/// The status changes that the scheduler makes, scan flags aside.
pub open spec fn valid_transition(from: u32, to: u32) -> bool {
    let f = from & !GSCAN;
    let t = to & !GSCAN;
    ||| f == GIDLE && t == GRUNNABLE
    ||| f == GRUNNABLE && t == GRUNNING
    ||| f == GRUNNING && (t == GRUNNABLE || t == GWAITING || t == GSYSCALL || t == GCOPYSTACK || t
        == GPREEMPTED || t == GDEAD)
    ||| f == GWAITING && (t == GRUNNABLE || t == GDEAD)
    ||| f == GSYSCALL && (t == GRUNNING || t == GRUNNABLE)
    ||| f == GCOPYSTACK && t == GRUNNING
    ||| f == GPREEMPTED && t == GRUNNABLE
}

/// Is `from` to `to` a change that the scheduler makes?
pub fn is_valid_transition(from: u32, to: u32) -> (ok: bool)
    ensures
        ok == valid_transition(from, to),
{
    let f: u32 = from & !GSCAN;
    let t: u32 = to & !GSCAN;
    if f == GIDLE || f == GPREEMPTED {
        t == GRUNNABLE
    } else if f == GRUNNABLE || f == GCOPYSTACK {
        t == GRUNNING
    } else if f == GRUNNING {
        t == GRUNNABLE || t == GWAITING || t == GSYSCALL || t == GCOPYSTACK || t == GPREEMPTED
            || t == GDEAD
    } else if f == GWAITING {
        t == GRUNNABLE || t == GDEAD
    } else if f == GSYSCALL {
        t == GRUNNING || t == GRUNNABLE
    } else {
        false
    }
}

/// One attempt at moving the status from `old_val` to `new_val`.
///
/// Nothing happens, and the caller tries again later, while the stack is being
/// scanned or another status stands there.
pub fn try_casgstatus(gp: &mut G, old_val: u32, new_val: u32) -> (done: bool)
    requires
        valid_transition(old_val, new_val),
    ensures
        done == (!old(gp).scanning() && old(gp).atomicstatus == old_val),
        *final(gp) == (if done {
            G { atomicstatus: new_val, ..*old(gp) }
        } else {
            *old(gp)
        }),
{
    if gp.atomicstatus & GSCAN == 0 && gp.atomicstatus == old_val {
        gp.atomicstatus = new_val;
        true
    } else {
        false
    }
}

/// Moves the status from `old_val`, which stands there, to `new_val`.
pub fn casgstatus(gp: &mut G, old_val: u32, new_val: u32)
    requires
        valid_transition(old_val, new_val),
        old(gp).atomicstatus == old_val,
        !old(gp).scanning(),
    ensures
        *final(gp) == (G { atomicstatus: new_val, ..*old(gp) }),
{
    gp.atomicstatus = new_val;
}

/// Freezes a goroutine of status `base_status` for a scan of its stack.
pub fn castogscanstatus(gp: &mut G, base_status: u32)
    requires
        old(gp).atomicstatus == base_status,
    ensures
        *final(gp) == (G { atomicstatus: GSCAN | base_status, ..*old(gp) }),
{
    gp.atomicstatus = GSCAN | base_status;
}

/// Ends a scan: the status `scan_status` gives way to `new_val`.
pub fn casfrom_gscanstatus(gp: &mut G, scan_status: u32, new_val: u32)
    requires
        old(gp).atomicstatus == scan_status,
    ensures
        *final(gp) == (G { atomicstatus: new_val, ..*old(gp) }),
{
    gp.atomicstatus = new_val;
}

/// Reads the status without the scan flag.
pub fn readgstatus(gp: &G) -> (s: u32)
    ensures
        s == gp.status(),
{
    gp.atomicstatus & !GSCAN
}

/// Runs `scanner` on the goroutine while the scan flag holds its status still,
/// and puts the status back.
pub fn scan_stack<F: FnOnce(&G)>(gp: &mut G, scanner: F)
    requires
        !old(gp).scanning(),
        scanner.requires((&(G { atomicstatus: GSCAN | old(gp).atomicstatus, ..*old(gp) }),)),
    ensures
        *final(gp) == *old(gp),
        scanner.ensures((&(G { atomicstatus: GSCAN | old(gp).atomicstatus, ..*old(gp) }),), ()),
{
    let base: u32 = readgstatus(gp);
    proof {
        lemma_base_status(gp.atomicstatus);
    }
    castogscanstatus(gp, base);
    scanner(&*gp);
    casfrom_gscanstatus(gp, GSCAN | base, base);
}

/// A status without the scan flag is its own base.
pub proof fn lemma_base_status(s: u32)
    requires
        s & GSCAN == 0,
    ensures
        s & !GSCAN == s,
{
    assert(s & !0x1000u32 == s) by (bit_vector)
        requires
            s & 0x1000u32 == 0,
    ;
}

/// Small statuses carry no scan flag, and laying the flag over one hides
/// nothing: what is read back is the status itself.
pub proof fn scan_flag_hides_nothing(s: u32)
    requires
        s < GSCAN,
    ensures
        s & GSCAN == 0,
        s & !GSCAN == s,
        (GSCAN | s) & GSCAN != 0,
        (GSCAN | s) & !GSCAN == s,
{
    assert(s & 0x1000u32 == 0 && s & !0x1000u32 == s && (0x1000u32 | s) & 0x1000u32 != 0 && (
    0x1000u32 | s) & !0x1000u32 == s) by (bit_vector)
        requires
            s < 0x1000u32,
    ;
}

/// Scan flags play no part in which status changes are allowed.
pub proof fn transitions_ignore_scan(from: u32, to: u32)
    ensures
        valid_transition(GSCAN | from, to) == valid_transition(from, to),
        valid_transition(from, GSCAN | to) == valid_transition(from, to),
{
    assert((0x1000u32 | from) & !0x1000u32 == from & !0x1000u32) by (bit_vector);
    assert((0x1000u32 | to) & !0x1000u32 == to & !0x1000u32) by (bit_vector);
}

/// A dead goroutine never changes its status again through a checked change.
pub proof fn dead_is_final(to: u32)
    ensures
        !valid_transition(GDEAD, to),
{
    scan_flag_hides_nothing(GDEAD);
}

/// Every way into `GRUNNING` leads through being runnable, returning from a
/// system call, or the end of a stack move.
pub proof fn running_is_entered_from(from: u32)
    requires
        valid_transition(from, GRUNNING),
    ensures
        from & !GSCAN == GRUNNABLE || from & !GSCAN == GSYSCALL || from & !GSCAN == GCOPYSTACK,
{
    scan_flag_hides_nothing(GRUNNING);
}

/// Leaving scan flags aside, these are all the status changes that are allowed:
/// a new goroutine becomes runnable; a runnable one runs; a running one yields,
/// parks, enters a system call, has its stack moved, is preempted or ends; a
/// parked one becomes runnable or ends; one comes back from a system call to run
/// or to be runnable; a moved stack is run on; a preempted one becomes runnable.
pub proof fn these_changes_are_allowed(from: u32, to: u32)
    requires
        from < 0x1000,
        to < 0x1000,
    ensures
        valid_transition(from, to) <==> seq![
            (0u32, 1u32),
            (1u32, 2u32),
            (2u32, 1u32),
            (2u32, 4u32),
            (2u32, 3u32),
            (2u32, 8u32),
            (2u32, 9u32),
            (2u32, 6u32),
            (4u32, 1u32),
            (4u32, 6u32),
            (3u32, 2u32),
            (3u32, 1u32),
            (8u32, 2u32),
            (9u32, 1u32),
        ].contains((from, to)),
{
    scan_flag_hides_nothing(from);
    scan_flag_hides_nothing(to);
    let s = seq![
        (0u32, 1u32),
        (1u32, 2u32),
        (2u32, 1u32),
        (2u32, 4u32),
        (2u32, 3u32),
        (2u32, 8u32),
        (2u32, 9u32),
        (2u32, 6u32),
        (4u32, 1u32),
        (4u32, 6u32),
        (3u32, 2u32),
        (3u32, 1u32),
        (8u32, 2u32),
        (9u32, 1u32),
    ];
    assert(s[0] == (0u32, 1u32) && s[1] == (1u32, 2u32) && s[2] == (2u32, 1u32) && s[3] == (
        2u32,
        4u32,
    ) && s[4] == (2u32, 3u32) && s[5] == (2u32, 8u32) && s[6] == (2u32, 9u32) && s[7] == (
        2u32,
        6u32,
    ) && s[8] == (4u32, 1u32) && s[9] == (4u32, 6u32) && s[10] == (3u32, 2u32) && s[11] == (
        3u32,
        1u32,
    ) && s[12] == (8u32, 2u32) && s[13] == (9u32, 1u32));
    if s.contains((from, to)) {
        let i = s.index_of((from, to));
        assert(s[i] == (from, to));
    }
}

/// What no goroutine is in, nothing leads out of or into.
pub proof fn unknown_statuses_lead_nowhere(from: u32, to: u32)
    requires
        from < 0x1000,
        to < 0x1000,
        valid_transition(from, to),
    ensures
        from <= 4 || from == 8 || from == 9,
        1 <= to <= 4 || to == 6 || to == 8 || to == 9,
        from != to,
{
    scan_flag_hides_nothing(from);
    scan_flag_hides_nothing(to);
}

/// No two reasons share a number or a text.
pub proof fn reasons_are_told_apart(a: WaitReason, b: WaitReason)
    ensures
        a.number() == b.number() ==> a == b,
        a.text() == b.text() ==> a == b,
{
    reveal_strlit("");
    reveal_strlit("select");
    reveal_strlit("chan receive");
    reveal_strlit("chan send");
    reveal_strlit("semacquire");
    reveal_strlit("sleep");
    reveal_strlit("condvar wait");
    reveal_strlit("IO wait");
    assert(a.text() == b.text() ==> a.text().len() == b.text().len() && (a.text().len() > 0
        ==> a.text()[0] == b.text()[0] && a.text()[1] == b.text()[1]));
}

/// A new descriptor waits for nothing, is asked for nothing, is claimed by nobody
/// and runs nowhere; its guard lies 928 bytes above the low end of its stack, and
/// its saved context is its own.
pub proof fn a_new_descriptor_is_idle(id: usize, stack: Stack, goid: u64)
    requires
        stack.lo + 928 <= u64::MAX,
    ensures
        ({
            let g = G::fresh(id, stack, goid);
            &&& g.atomicstatus == 0 && g.goid == goid && g.stack == stack
            &&& g.stackguard0 - stack.lo == 928
            &&& g.sched.g == Some(id) && g.sched.ctxt is None && g.sched.sp == 0 && g.sched.pc == 0
                && g.sched.bp == 0 && g.sched.lr == 0 && g.sched.ret == 0
            &&& g.m is None && g.param is None && g.park_unlock is None && g.waiting_wg is None
            &&& g.selectdone == 0 && !g.preempt && g.waitreason == WaitReason::Zero
        }),
{
}

/// A status that is laid under a scan flag is read without it, and is then said to
/// be scanned.
pub proof fn a_status_is_read_without_its_flag(g: G, s: u32)
    requires
        s < 0x1000,
    ensures
        (G { atomicstatus: s, ..g }).status() == s,
        !(G { atomicstatus: s, ..g }).scanning(),
        (G { atomicstatus: 0x1000u32 | s, ..g }).status() == s,
        (G { atomicstatus: 0x1000u32 | s, ..g }).scanning(),
{
    scan_flag_hides_nothing(s);
}

} // verus!
