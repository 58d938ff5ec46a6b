//! Stopping a goroutine from outside: when a signal may do it, and how the
//! interrupted thread is sent to the code that saves its registers.

use vstd::prelude::*;

use super::g::{readgstatus, G, GRUNNING};
use super::run::StackWrite;
use super::stack::{ArmRegs, X86Regs};

verus! {

/// Free stack that is needed below the stack pointer.
pub const ASYNC_PREEMPT_HEADROOM: u64 = 4096;

/// Code at most this far from the program's own code belongs to the program.
pub const TEXT_RANGE_BYTES: u64 = 0x1000_0000;

/// Code at most this far from a switching routine may be in it.
pub const ASM_FN_MAX_BYTES: u64 = 4096;

/// Bytes below the stack pointer that code may use without moving it.
pub const RED_ZONE: u64 = 128;

/// The distance of two addresses.
pub open spec fn distance(a: u64, b: u64) -> int {
    if a > b {
        a - b
    } else {
        b - a
    }
}

/// The address lies in the program's own code, as far as that is known.
pub open spec fn in_our_text(pc: u64, anchor: u64) -> bool {
    anchor == 0 || distance(pc, anchor) < TEXT_RANGE_BYTES
}

/// Is `pc` in the program's own code?  `anchor` is an address in it, or 0 where
/// none is known.
pub fn pc_in_our_text(pc: u64, anchor: u64) -> (b: bool)
    ensures
        b == in_our_text(pc, anchor),
{
    if anchor == 0 {
        return true;
    }
    let diff: u64 = if pc > anchor {
        pc - anchor
    } else {
        anchor - pc
    };
    diff < TEXT_RANGE_BYTES
}

/// The address may lie in one of the routines that begin at `bases`.
pub open spec fn near_any(pc: u64, bases: Seq<u64>) -> bool {
    exists|i: int| 0 <= i < bases.len() && distance(pc, #[trigger] bases[i]) < ASM_FN_MAX_BYTES
}

/// May `pc` be in one of the routines that switch stacks, which begin at
/// `bases`?
pub fn pc_in_scheduler_asm(pc: u64, bases: &Vec<u64>) -> (b: bool)
    ensures
        b == near_any(pc, bases@),
{
    let mut i: usize = 0;
    while i < bases.len()
        invariant
            i <= bases@.len(),
            forall|j: int|
                0 <= j < i ==> distance(pc, #[trigger] bases@[j]) >= ASM_FN_MAX_BYTES,
        decreases bases@.len() - i,
    {
        let base: u64 = bases[i];
        let diff: u64 = if pc > base {
            pc - base
        } else {
            base - pc
        };
        if diff < ASM_FN_MAX_BYTES {
            assert(distance(pc, bases@[i as int]) < ASM_FN_MAX_BYTES);
            return true;
        }
        i = i + 1;
    }
    false
}

/// What the handler of the preemption signal does.
#[derive(Copy, Clone, Debug, PartialEq, Eq, Structural)]
pub enum SignalAction {
    /// The signal was not for it: the former handler gets it.
    Chain,
    /// This is no moment to stop the goroutine.
    Ignore,
    /// It sends the thread to the code that stops the goroutine.
    Redirect,
}

/// What the handler knows of the thread that it interrupted.
#[derive(Copy, Clone, Debug, PartialEq, Eq, Structural)]
pub struct Interrupted {
    pub pc: u64,
    pub sp: u64,
    /// How often preemption is locked on the thread; none outside of the
    /// scheduler.
    pub locks: Option<i32>,
    /// An address in the program's own code, or 0.
    pub anchor: u64,
}

/// The goroutine can be stopped where it was interrupted: preemption is not
/// locked; the code is the program's own and none that switches stacks; the
/// goroutine is running; and its stack pointer is aligned and lies on its stack
/// with room below.
pub open spec fn stoppable(g: G, at: Interrupted, bases: Seq<u64>) -> bool {
    &&& at.locks is Some ==> at.locks->0 <= 0
    &&& in_our_text(at.pc, at.anchor)
    &&& g.status() == GRUNNING
    &&& g.stack.lo + ASYNC_PREEMPT_HEADROOM <= at.sp <= g.stack.hi
    &&& at.sp % 8 == 0
    &&& !near_any(at.pc, bases)
}

/// What the handler of the preemption signal does while goroutine `g`, if any,
/// runs.
pub open spec fn signal_action(g: Option<G>, at: Interrupted, bases: Seq<u64>) -> SignalAction {
    if g is None || !g->0.preempt {
        SignalAction::Chain
    } else if stoppable(g->0, at, bases) {
        SignalAction::Redirect
    } else {
        SignalAction::Ignore
    }
}

/// Decides what the handler of the preemption signal does.
pub fn sigurg_handler(gp: Option<&G>, at: Interrupted, bases: &Vec<u64>) -> (a: SignalAction)
    ensures
        a == signal_action(
            match gp {
                Some(g) => Some(*g),
                None => None,
            },
            at,
            bases@,
        ),
{
    let g: &G = match gp {
        None => {
            return SignalAction::Chain;
        },
        Some(g) => g,
    };
    if !g.preempt {
        return SignalAction::Chain;
    }
    if let Some(locks) = at.locks {
        if locks > 0 {
            return SignalAction::Ignore;
        }
    }
    if !pc_in_our_text(at.pc, at.anchor) {
        return SignalAction::Ignore;
    }
    if readgstatus(g) != GRUNNING {
        return SignalAction::Ignore;
    }
    let sp: u64 = at.sp;
    if sp < g.stack.lo || sp > g.stack.hi {
        return SignalAction::Ignore;
    }
    if sp - g.stack.lo < ASYNC_PREEMPT_HEADROOM {
        return SignalAction::Ignore;
    }
    assert(sp & 7 == sp % 8) by (bit_vector);
    if sp & 7 != 0 {
        return SignalAction::Ignore;
    }
    if pc_in_scheduler_asm(at.pc, bases) {
        return SignalAction::Ignore;
    }
    SignalAction::Redirect
}

/// Sends an interrupted x86-64 thread to `trampoline`, as if it had called it:
/// the address to return to goes below the bytes that the interrupted code may
/// be using, and the stack pointer points at it.
pub fn redirect_to_async_preempt(ctx: &mut X86Regs, trampoline: u64) -> (w: StackWrite)
    requires
        old(ctx).rsp >= RED_ZONE + 8,
    ensures
        w == (StackWrite { addr: (old(ctx).rsp - 136) as u64, value: old(ctx).rip }),
        *final(ctx) == (X86Regs { rsp: w.addr, rip: trampoline, ..*old(ctx) }),
{
    let rip: u64 = ctx.rip;
    let new_rsp: u64 = ctx.rsp - RED_ZONE - 8;
    ctx.rsp = new_rsp;
    ctx.rip = trampoline;
    StackWrite { addr: new_rsp, value: rip }
}

/// Sends an interrupted AArch64 thread to `trampoline`: its link register is
/// saved on the stack and then names the address to return to.
pub fn redirect_arm_to_async_preempt(ctx: &mut ArmRegs, trampoline: u64) -> (w: StackWrite)
    requires
        old(ctx).x@.len() == 31,
        old(ctx).sp >= 16,
    ensures
        w == (StackWrite { addr: (old(ctx).sp - 16) as u64, value: old(ctx).x@[30] }),
        final(ctx).sp == w.addr,
        final(ctx).pc == trampoline,
        final(ctx).x@ == old(ctx).x@.update(30, old(ctx).pc),
{
    let sp: u64 = ctx.sp - 16;
    let saved: u64 = ctx.x[30];
    ctx.sp = sp;
    ctx.x[30] = ctx.pc;
    ctx.pc = trampoline;
    StackWrite { addr: sp, value: saved }
}

/// While preemption is locked on a thread, its goroutine is never stopped.
pub proof fn locked_is_never_stopped(g: Option<G>, at: Interrupted, bases: Seq<u64>)
    requires
        at.locks is Some,
        at.locks->0 > 0,
    ensures
        signal_action(g, at, bases) != SignalAction::Redirect,
{
}

/// Stopping a goroutine writes only to its own stack, and below the bytes that
/// the interrupted code may be using; on return the stack pointer is back.
pub proof fn redirect_stays_on_the_stack(g: G, at: Interrupted, bases: Seq<u64>)
    requires
        signal_action(Some(g), at, bases) == SignalAction::Redirect,
    ensures
        at.sp >= RED_ZONE + 8,
        g.stack.lo <= at.sp - 136,
        at.sp - 136 + 8 <= at.sp - RED_ZONE,
        g.stack.lo <= at.sp - 16,
        (at.sp - 136) % 8 == 0,
{
}

/// A goroutine that nobody asked to yield is never stopped.
pub proof fn only_asked_are_stopped(g: G, at: Interrupted, bases: Seq<u64>)
    requires
        !g.preempt,
    ensures
        signal_action(Some(g), at, bases) == SignalAction::Chain,
{
}

/// A goroutine that was asked to yield is stopped wherever that can be done: its
/// thread is not locked, the interrupted code is the program's own and lies a page
/// or more from every routine that switches stacks, the goroutine runs, and its
/// stack pointer is on a word of its own stack with a page of room below.
pub proof fn whoever_can_be_stopped_is(g: G, at: Interrupted, bases: Seq<u64>)
    requires
        g.preempt,
        g.atomicstatus == 2 || g.atomicstatus == 0x1000u32 | 2,
        at.locks is Some ==> at.locks->0 <= 0,
        at.anchor == 0 || -0x1000_0000 < at.pc - at.anchor < 0x1000_0000,
        forall|i: int|
            0 <= i < bases.len() ==> at.pc - #[trigger] bases[i] >= 4096 || bases[i] - at.pc
                >= 4096,
        g.stack.lo + 4096 <= at.sp,
        at.sp <= g.stack.hi,
        at.sp % 8 == 0,
    ensures
        signal_action(Some(g), at, bases) == SignalAction::Redirect,
{
    super::g::scan_flag_hides_nothing(GRUNNING);
}

/// And nobody else is: whoever is stopped was asked to, runs, is not locked, is in
/// the program's own code, away from the routines that switch stacks, and has room
/// on its stack.
pub proof fn nobody_else_is_stopped(g: G, at: Interrupted, bases: Seq<u64>, i: int)
    requires
        signal_action(Some(g), at, bases) == SignalAction::Redirect,
    ensures
        g.preempt,
        g.status() == 2,
        at.locks is Some ==> at.locks->0 <= 0,
        at.anchor != 0 ==> -0x1000_0000 < at.pc - at.anchor < 0x1000_0000,
        0 <= i < bases.len() ==> at.pc - bases[i] >= 4096 || bases[i] - at.pc >= 4096,
        g.stack.lo + 4096 <= at.sp <= g.stack.hi,
        at.sp % 8 == 0,
{
    if 0 <= i < bases.len() {
        assert(distance(at.pc, bases[i]) >= ASM_FN_MAX_BYTES);
    }
}

/// A signal that comes while no goroutine runs, or to one that nobody asked to
/// yield, belongs to the former handler; one that comes at a bad moment is
/// dropped, since the goroutine will be asked again.
pub proof fn signals_of_others_are_passed_on(g: Option<G>, at: Interrupted, bases: Seq<u64>)
    ensures
        signal_action(g, at, bases) == SignalAction::Chain <==> g is None || !g->0.preempt,
{
}

/// Code is taken for the program's own within 256 mebibytes of the known address,
/// on either side, and everywhere where none is known; and for code that switches
/// stacks within a page of where such a routine begins.
pub proof fn near_is_near_on_both_sides(pc: u64, base: u64, bases: Seq<u64>)
    ensures
        base != 0 ==> (in_our_text(pc, base) <==> -0x1000_0000 < pc - base < 0x1000_0000),
        in_our_text(pc, 0),
        near_any(pc, seq![base]) <==> -4096 < pc - base < 4096,
        !near_any(pc, seq![]),
        near_any(pc, bases.push(base)) <==> near_any(pc, bases) || -4096 < pc - base < 4096,
{
    let one = seq![base];
    assert(one[0] == base);
    let more = bases.push(base);
    assert(more[bases.len() as int] == base);
    if near_any(pc, bases) {
        let i = choose|i: int|
            0 <= i < bases.len() && distance(pc, #[trigger] bases[i]) < ASM_FN_MAX_BYTES;
        assert(more[i] == bases[i]);
    }
    if near_any(pc, more) && !(-4096 < pc - base < 4096) {
        let i = choose|i: int|
            0 <= i < more.len() && distance(pc, #[trigger] more[i]) < ASM_FN_MAX_BYTES;
        assert(more[i] == bases[i]);
    }
}

} // verus!
