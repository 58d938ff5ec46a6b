//! Stacks of goroutines: their layout, and how they grow.
//!
//! A mapping begins with a guard page that cannot be touched.  The stack lies
//! above it and grows down towards it:
//!
//! ```text
//! base .. base + page      guard page
//! lo = base + page .. hi   stack
//! ```

use vstd::prelude::*;

use super::g::{
    casgstatus, readgstatus, scan_flag_hides_nothing, Stack, G, GCOPYSTACK, GRUNNING, STACK_GUARD,
};

verus! {

/// Largest stack, in bytes.
pub const STACK_MAX: u64 = 0x4000_0000;

/// Stack of a thread's scheduler, in bytes.
pub const G0_STACK_BYTES: u64 = 524_288;

/// How the program was built, and for what system.
#[derive(Copy, Clone, Debug, PartialEq, Eq, Structural)]
pub enum Profile {
    Release,
    LinuxDebug,
    MacOsDebug,
    WindowsDebug,
}

/// Size of a new goroutine's stack: 32 KiB in release builds; in debug builds
/// 16 KiB on Linux and 64 KiB on macOS and Windows.
pub open spec fn initial_stack(profile: Profile) -> u64 {
    match profile {
        Profile::Release => 32_768,
        Profile::LinuxDebug => 16_384,
        Profile::MacOsDebug => 65_536,
        Profile::WindowsDebug => 65_536,
    }
}

/// Size of a new goroutine's stack.
pub fn goroutine_stack_bytes(profile: Profile) -> (n: u64)
    ensures
        n == initial_stack(profile),
{
    match profile {
        Profile::Release => 32_768,
        Profile::LinuxDebug => 16_384,
        Profile::MacOsDebug => 65_536,
        Profile::WindowsDebug => 65_536,
    }
}

/// A kind of operating system, by the calls with which it gives memory.
#[derive(Copy, Clone, Debug, PartialEq, Eq, Structural)]
pub enum System {
    Unix,
    Windows,
}

/// Why a stack could not be made.
#[derive(Copy, Clone, Debug, PartialEq, Eq, Structural)]
pub enum AllocError {
    /// The system gave no memory.
    MapFailed,
    /// The guard page could not be protected.
    GuardFailed,
}

impl AllocError {
    /// The text of the error, which names the call that failed.
    pub open spec fn text(self, system: System) -> Seq<char> {
        match (self, system) {
            (AllocError::MapFailed, System::Unix) => "stack_alloc_size: mmap failed"@,
            (AllocError::GuardFailed, System::Unix) =>
                "stack_alloc_size: mprotect guard page failed"@,
            (AllocError::MapFailed, System::Windows) => "stack_alloc_size: VirtualAlloc failed"@,
            (AllocError::GuardFailed, System::Windows) =>
                "stack_alloc_size: VirtualProtect guard page failed"@,
        }
    }

    /// Describes the error as it comes on `system`.
    pub fn message(self, system: System) -> (s: &'static str)
        ensures
            s@ == self.text(system),
    {
        match (self, system) {
            (AllocError::MapFailed, System::Unix) => "stack_alloc_size: mmap failed",
            (AllocError::GuardFailed, System::Unix) =>
                "stack_alloc_size: mprotect guard page failed",
            (AllocError::MapFailed, System::Windows) => "stack_alloc_size: VirtualAlloc failed",
            (AllocError::GuardFailed, System::Windows) =>
                "stack_alloc_size: VirtualProtect guard page failed",
        }
    }
}

/// A mapping of memory.
#[derive(Copy, Clone, Debug, PartialEq, Eq, Structural)]
pub struct Mapping {
    pub base: u64,
    pub total: u64,
}

/// A stack could not be made; a mapping that is to be given up.
#[derive(Copy, Clone, Debug, PartialEq, Eq, Structural)]
pub struct AllocFailure {
    pub error: AllocError,
    pub unmap: Option<Mapping>,
}

/// Bytes to map for a stack of `size` bytes.
pub fn mapping_size(size: u64, page: u64) -> (total: u64)
    requires
        size + page <= u64::MAX,
    ensures
        total == size + page,
{
    size + page
}

/// Makes a stack of `size` bytes out of what the system said: the address of
/// the mapping, if there is one, and whether its first page could be protected.
pub fn stack_alloc_size(size: u64, page: u64, mapped: Option<u64>, guarded: bool) -> (r: Result<
    Stack,
    AllocFailure,
>)
    requires
        size + page <= u64::MAX,
        mapped is Some ==> mapped->0 + size + page <= u64::MAX,
    ensures
        r is Ok <==> mapped is Some && guarded,
        r is Ok ==> r->Ok_0 == (Stack {
            lo: (mapped->0 + page) as u64,
            hi: (mapped->0 + page + size) as u64,
        }),
        mapped is None ==> r == Err::<Stack, AllocFailure>(
            AllocFailure { error: AllocError::MapFailed, unmap: None },
        ),
        mapped is Some && !guarded ==> r == Err::<Stack, AllocFailure>(
            AllocFailure {
                error: AllocError::GuardFailed,
                unmap: Some(Mapping { base: mapped->0, total: (size + page) as u64 }),
            },
        ),
{
    let total: u64 = mapping_size(size, page);
    match mapped {
        None => Err(AllocFailure { error: AllocError::MapFailed, unmap: None }),
        Some(base) => {
            if !guarded {
                return Err(
                    AllocFailure {
                        error: AllocError::GuardFailed,
                        unmap: Some(Mapping { base, total }),
                    },
                );
            }
            Ok(Stack { lo: base + page, hi: base + total })
        },
    }
}

/// The mapping that holds a stack, guard page and all.
pub open spec fn mapping_of(stack: Stack, page: u64) -> Mapping {
    Mapping { base: (stack.lo - page) as u64, total: (stack.hi - stack.lo + page) as u64 }
}

/// The mapping to give up when a stack is freed.
pub fn stack_free(stack: &Stack, page: u64) -> (m: Mapping)
    requires
        page <= stack.lo <= stack.hi,
    ensures
        m == mapping_of(*stack, page),
{
    Mapping { base: stack.lo - page, total: stack.hi - stack.lo + page }
}

/// What is freed is exactly what was mapped.
pub proof fn free_undoes_alloc(size: u64, page: u64, base: u64)
    requires
        base + size + page <= u64::MAX,
    ensures
        mapping_of(
            Stack { lo: (base + page) as u64, hi: (base + page + size) as u64 },
            page,
        ) == (Mapping { base, total: (size + page) as u64 }),
{
}

/// The size to which a stack of `size` bytes grows; none when it is as large as
/// stacks get.
pub open spec fn grown_size(size: u64) -> Option<u64> {
    if size >= STACK_MAX {
        None
    } else if size * 2 <= STACK_MAX {
        Some((size * 2) as u64)
    } else {
        Some(STACK_MAX)
    }
}

/// Decides to which size a stack grows.
pub fn next_size(size: u64) -> (n: Option<u64>)
    ensures
        n == grown_size(size),
{
    if size >= STACK_MAX {
        return None;
    }
    let twice: u64 = size * 2;
    if twice <= STACK_MAX {
        Some(twice)
    } else {
        Some(STACK_MAX)
    }
}

/// A stack grows until it is as large as stacks get, and never beyond.
pub proof fn growth_is_bounded(size: u64)
    requires
        size > 0,
    ensures
        grown_size(size) is Some <==> size < STACK_MAX,
        grown_size(size) is Some ==> size < grown_size(size)->0 <= STACK_MAX,
{
}

/// A stack with its guard page, in the address space of a process.
pub open spec fn placed(s: Stack, page: u64) -> bool {
    &&& page <= s.lo
    &&& s.lo < s.hi
    &&& s.hi <= i64::MAX
    &&& s.hi - s.lo <= STACK_MAX
    &&& s.lo % 8 == 0
    &&& s.hi % 8 == 0
}

/// The number of words on a stack.
pub open spec fn words(s: Stack) -> nat {
    ((s.hi - s.lo) / 8) as nat
}

/// Where the guard page of a stack begins.
pub open spec fn guard_lo(lo: u64, page: u64) -> int {
    if lo >= page {
        lo - page
    } else {
        0
    }
}

/// A value moved by `delta` if it points into `[from, to)`.
pub open spec fn relocated(val: u64, from: int, to: int, delta: int) -> u64 {
    if from <= val < to {
        (val + delta) as u64
    } else {
        val
    }
}

/// Every value in `[from, to)` can be moved by `delta`.
pub open spec fn can_move(from: int, to: int, delta: int) -> bool {
    &&& to <= i64::MAX
    &&& i64::MIN < delta <= i64::MAX
    &&& from <= to ==> 0 <= from + delta && to + delta <= i64::MAX
}

/// Moves a value by `delta` if it points into `[from, to)`.
fn adj(val: u64, from: u64, to: u64, delta: i64) -> (r: u64)
    requires
        can_move(from as int, to as int, delta as int),
    ensures
        r == relocated(val, from as int, to as int, delta as int),
{
    if val >= from && val < to {
        (val as i64 + delta) as u64
    } else {
        val
    }
}

/// Where the live part of a stack begins: at the saved stack pointer, or, where
/// that tells nothing, at the very bottom.
pub open spec fn live_start(sp: u64, s: Stack) -> int {
    if sp != 0 && s.lo <= sp < s.hi {
        sp as int
    } else {
        s.lo as int
    }
}

/// How far a stack moves.  Addresses keep their distance from the top.
pub open spec fn moved_by(from: Stack, to: Stack) -> int {
    to.hi - from.hi
}

/// The words of the new stack: the live words, each moved if it points into the
/// old stack or its guard page, at the same distance from the top; the rest is
/// zero.
pub open spec fn copied(mem: Seq<u64>, live: int, from: Stack, to: Stack, page: u64) -> Seq<u64> {
    let n = words(to) as int;
    Seq::new(
        words(to),
        |j: int|
            if n - j <= live {
                relocated(
                    mem[mem.len() - (n - j)],
                    guard_lo(from.lo, page),
                    from.hi as int,
                    moved_by(from, to),
                )
            } else {
                0
            },
    )
}

/// A goroutine whose context has moved with its stack.
pub open spec fn context_moved(g: G, from: Stack, to: Stack) -> G {
    G {
        sched: super::g::Gobuf {
            sp: relocated(g.sched.sp, from.lo as int, from.hi as int, moved_by(from, to)),
            bp: relocated(g.sched.bp, from.lo as int, from.hi as int, moved_by(from, to)),
            ..g.sched
        },
        ..g
    }
}

/// Copies the live part of a stack, whose words are `mem`, to another one.
///
/// Gives back how far the stack moved, and the words of the new one.
pub fn copystack(gp: &mut G, old_stack: &Stack, new_stack: &Stack, mem: &Vec<u64>, page: u64) -> (r:
    (i64, Vec<u64>))
    requires
        old(gp).atomicstatus == GRUNNING,
        placed(*old_stack, page),
        placed(*new_stack, page),
        old_stack.hi - old_stack.lo <= new_stack.hi - new_stack.lo,
        mem@.len() == words(*old_stack),
        live_start(old(gp).sched.sp, *old_stack) % 8 == 0,
    ensures
        r.0 == moved_by(*old_stack, *new_stack),
        r.1@ == copied(
            mem@,
            (old_stack.hi - live_start(old(gp).sched.sp, *old_stack)) / 8,
            *old_stack,
            *new_stack,
            page,
        ),
        *final(gp) == context_moved(*old(gp), *old_stack, *new_stack),
{
    proof {
        scan_flag_hides_nothing(GRUNNING);
        scan_flag_hides_nothing(GCOPYSTACK);
    }
    let old_status: u32 = readgstatus(gp);
    casgstatus(gp, old_status, GCOPYSTACK);
    let old_lo: u64 = old_stack.lo;
    let old_hi: u64 = old_stack.hi;
    let new_hi: u64 = new_stack.hi;
    let saved_sp: u64 = gp.sched.sp;
    let live_start_old: u64 = if saved_sp != 0 && saved_sp >= old_lo && saved_sp < old_hi {
        saved_sp
    } else {
        old_lo
    };
    let live: usize = ((old_hi - live_start_old) / 8) as usize;
    let total: usize = ((new_hi - new_stack.lo) / 8) as usize;
    let delta: i64 = new_hi as i64 - old_hi as i64;
    let old_guard_lo: u64 = old_lo.saturating_sub(page);
    assert(can_move(old_guard_lo as int, old_hi as int, delta as int));
    assert(can_move(old_lo as int, old_hi as int, delta as int));
    let ghost image = copied(mem@, live as int, *old_stack, *new_stack, page);
    let mut out: Vec<u64> = Vec::new();
    let mut j: usize = 0;
    while j < total
        invariant
            j <= total,
            total == words(*new_stack),
            live <= mem@.len() <= total,
            placed(*old_stack, page),
            old_lo == old_stack.lo,
            old_hi == old_stack.hi,
            old_guard_lo == guard_lo(old_lo, page),
            delta == moved_by(*old_stack, *new_stack),
            can_move(old_guard_lo as int, old_hi as int, delta as int),
            image == copied(mem@, live as int, *old_stack, *new_stack, page),
            out@ == image.take(j as int),
        decreases total - j,
    {
        let w: u64 = if total - j <= live {
            adj(mem[mem.len() - (total - j)], old_guard_lo, old_hi, delta)
        } else {
            0
        };
        out.push(w);
        j = j + 1;
        assert(out@ =~= image.take(j as int));
    }
    assert(image.take(total as int) =~= image);
    gp.sched.sp = adj(gp.sched.sp, old_lo, old_hi, delta);
    gp.sched.bp = adj(gp.sched.bp, old_lo, old_hi, delta);
    casgstatus(gp, GCOPYSTACK, old_status);
    (delta, out)
}

/// A goroutine that has moved to another stack.
pub open spec fn restacked(g: G, to: Stack) -> G {
    G {
        stack: to,
        stackguard0: (to.lo + STACK_GUARD) as u64,
        ..context_moved(g, g.stack, to)
    }
}

/// Moves a goroutine to a new stack, twice as large or as large as stacks get.
///
/// Gives back how far the stack moved, and the words of the new one.  The old
/// stack is then to be freed.
pub fn newstack(gp: &mut G, new_stack: Stack, mem: &Vec<u64>, page: u64) -> (r: (i64, Vec<u64>))
    requires
        old(gp).atomicstatus == GRUNNING,
        placed(old(gp).stack, page),
        placed(new_stack, page),
        grown_size((old(gp).stack.hi - old(gp).stack.lo) as u64) == Some(
            (new_stack.hi - new_stack.lo) as u64,
        ),
        mem@.len() == words(old(gp).stack),
        live_start(old(gp).sched.sp, old(gp).stack) % 8 == 0,
    ensures
        r.0 == moved_by(old(gp).stack, new_stack),
        r.1@ == copied(
            mem@,
            (old(gp).stack.hi - live_start(old(gp).sched.sp, old(gp).stack)) / 8,
            old(gp).stack,
            new_stack,
            page,
        ),
        *final(gp) == restacked(*old(gp), new_stack),
{
    let old_stack: Stack = gp.stack;
    let r = copystack(gp, &old_stack, &new_stack, mem, page);
    gp.stack = new_stack;
    gp.stackguard0 = new_stack.lo + STACK_GUARD;
    r
}

/// A goroutine that is about to be resumed has so little stack left that it
/// should grow first: the size to which it grows.
pub open spec fn wants_growth(g: G) -> Option<u64> {
    if g.sched.sp != 0 && g.sched.sp < g.stack.lo + STACK_GUARD {
        grown_size((g.stack.hi - g.stack.lo) as u64)
    } else {
        None
    }
}

/// Decides whether a goroutine that is about to be resumed gets a larger stack.
pub fn growth_needed(gp: &G) -> (n: Option<u64>)
    requires
        gp.stack.lo <= gp.stack.hi,
        gp.stack.lo + STACK_GUARD <= u64::MAX,
    ensures
        n == wants_growth(*gp),
{
    if gp.sched.sp != 0 && gp.sched.sp < gp.stack.lo + STACK_GUARD {
        next_size(gp.stack.hi - gp.stack.lo)
    } else {
        None
    }
}

/// Grows the stack of a goroutine that is about to be resumed, if it is nearly
/// used up, onto the stack that was made for it.
///
/// Gives back the words of the new stack, where there is one.
pub fn grow_stack_if_needed(gp: &mut G, new_stack: Option<Stack>, mem: &Vec<u64>, page: u64) -> (r:
    Option<Vec<u64>>)
    requires
        old(gp).atomicstatus == GRUNNING,
        placed(old(gp).stack, page),
        wants_growth(*old(gp)) is Some ==> new_stack is Some && placed(new_stack->0, page)
            && new_stack->0.hi - new_stack->0.lo == wants_growth(*old(gp))->0,
        mem@.len() == words(old(gp).stack),
        old(gp).sched.sp % 8 == 0,
    ensures
        wants_growth(*old(gp)) is None ==> r is None && *final(gp) == *old(gp),
        wants_growth(*old(gp)) is Some ==> r is Some && *final(gp) == restacked(
            *old(gp),
            new_stack->0,
        ) && r->0@ == copied(
            mem@,
            (old(gp).stack.hi - live_start(old(gp).sched.sp, old(gp).stack)) / 8,
            old(gp).stack,
            new_stack->0,
            page,
        ),
{
    match growth_needed(gp) {
        None => None,
        Some(_) => match new_stack {
            None => None,
            Some(to) => {
                let (_delta, out) = newstack(gp, to, mem, page);
                Some(out)
            },
        },
    }
}

/// A fault at this address is a goroutine running into its guard page.
pub open spec fn hits_guard(addr: u64, s: Stack, page: u64) -> bool {
    s.lo - page <= addr < s.lo
}

/// What a memory fault means.
#[derive(Copy, Clone, Debug, PartialEq, Eq, Structural)]
pub enum Fault {
    /// It has nothing to do with a goroutine's stack.
    Other,
    /// The goroutine needs a stack of that size.
    Grow(u64),
    /// The goroutine has used up the largest stack.
    Overflow,
}

/// What a fault at `addr` means while goroutine `g`, if any, runs.
pub open spec fn fault_kind(addr: u64, g: Option<G>, page: u64) -> Fault {
    match g {
        None => Fault::Other,
        Some(g) => if !hits_guard(addr, g.stack, page) {
            Fault::Other
        } else {
            match grown_size((g.stack.hi - g.stack.lo) as u64) {
                None => Fault::Overflow,
                Some(n) => Fault::Grow(n),
            }
        },
    }
}

/// Decides what a memory fault means.
pub fn classify_fault(fault_addr: u64, gp: Option<&G>, page: u64) -> (f: Fault)
    requires
        gp is Some ==> page <= gp->0.stack.lo <= gp->0.stack.hi,
    ensures
        f == fault_kind(
            fault_addr,
            match gp {
                Some(g) => Some(*g),
                None => None,
            },
            page,
        ),
{
    match gp {
        None => Fault::Other,
        Some(g) => {
            let guard: u64 = g.stack.lo - page;
            if fault_addr < guard || fault_addr >= g.stack.lo {
                return Fault::Other;
            }
            match next_size(g.stack.hi - g.stack.lo) {
                None => Fault::Overflow,
                Some(n) => Fault::Grow(n),
            }
        },
    }
}

/// The registers of an interrupted thread on x86-64.
#[derive(Copy, Clone, Debug, PartialEq, Eq, Structural)]
pub struct X86Regs {
    pub rax: u64,
    pub rbx: u64,
    pub rcx: u64,
    pub rdx: u64,
    pub rsi: u64,
    pub rdi: u64,
    pub rbp: u64,
    pub rsp: u64,
    pub r8: u64,
    pub r9: u64,
    pub r10: u64,
    pub r11: u64,
    pub r12: u64,
    pub r13: u64,
    pub r14: u64,
    pub r15: u64,
    pub rip: u64,
}

/// The registers of an interrupted thread on AArch64.
#[verifier::ext_equal]
pub struct ArmRegs {
    /// The general registers; 29 is the frame pointer, 30 the link register.
    pub x: Vec<u64>,
    pub sp: u64,
    pub pc: u64,
}

/// The registers after the stack has moved: the stack and frame pointers and
/// the registers that a call keeps are moved if they point into the old stack
/// or its guard page; the others only if they point into the guard page.
pub open spec fn x86_moved(c: X86Regs, lo: u64, hi: u64, delta: int, page: u64) -> X86Regs {
    let g = guard_lo(lo, page);
    let h = hi as int;
    let l = lo as int;
    X86Regs {
        rsp: relocated(c.rsp, g, h, delta),
        rbp: relocated(c.rbp, g, h, delta),
        rbx: relocated(c.rbx, g, h, delta),
        r12: relocated(c.r12, g, h, delta),
        r13: relocated(c.r13, g, h, delta),
        r14: relocated(c.r14, g, h, delta),
        r15: relocated(c.r15, g, h, delta),
        rax: relocated(c.rax, g, l, delta),
        rcx: relocated(c.rcx, g, l, delta),
        rdx: relocated(c.rdx, g, l, delta),
        rsi: relocated(c.rsi, g, l, delta),
        rdi: relocated(c.rdi, g, l, delta),
        r8: relocated(c.r8, g, l, delta),
        r9: relocated(c.r9, g, l, delta),
        r10: relocated(c.r10, g, l, delta),
        r11: relocated(c.r11, g, l, delta),
        rip: c.rip,
    }
}

/// Brings the registers of an interrupted thread over to the new stack.
pub fn update_sp_in_context(ctx: &mut X86Regs, old_lo: u64, old_hi: u64, delta: i64, page: u64)
    requires
        old_lo <= old_hi,
        can_move(guard_lo(old_lo, page), old_hi as int, delta as int),
    ensures
        *final(ctx) == x86_moved(*old(ctx), old_lo, old_hi, delta as int, page),
{
    let guard: u64 = old_lo.saturating_sub(page);
    ctx.rsp = adj(ctx.rsp, guard, old_hi, delta);
    ctx.rbp = adj(ctx.rbp, guard, old_hi, delta);
    ctx.rbx = adj(ctx.rbx, guard, old_hi, delta);
    ctx.r12 = adj(ctx.r12, guard, old_hi, delta);
    ctx.r13 = adj(ctx.r13, guard, old_hi, delta);
    ctx.r14 = adj(ctx.r14, guard, old_hi, delta);
    ctx.r15 = adj(ctx.r15, guard, old_hi, delta);
    ctx.rax = adj(ctx.rax, guard, old_lo, delta);
    ctx.rcx = adj(ctx.rcx, guard, old_lo, delta);
    ctx.rdx = adj(ctx.rdx, guard, old_lo, delta);
    ctx.rsi = adj(ctx.rsi, guard, old_lo, delta);
    ctx.rdi = adj(ctx.rdi, guard, old_lo, delta);
    ctx.r8 = adj(ctx.r8, guard, old_lo, delta);
    ctx.r9 = adj(ctx.r9, guard, old_lo, delta);
    ctx.r10 = adj(ctx.r10, guard, old_lo, delta);
    ctx.r11 = adj(ctx.r11, guard, old_lo, delta);
}

/// A running goroutine whose whole stack counts as live: what was saved of its
/// stack pointer is out of date.
pub open spec fn all_live(g: G) -> G {
    G { sched: super::g::Gobuf { sp: 0, ..g.sched }, ..g }
}

/// Grows the stack of the goroutine that ran into its guard page, and brings its
/// registers over, so that the instruction at the fault can be run again.
///
/// Gives back the words of the new stack.
pub fn try_grow_stack_from_signal(
    gp: &mut G,
    new_stack: Stack,
    mem: &Vec<u64>,
    page: u64,
    ctx: &mut X86Regs,
) -> (out: Vec<u64>)
    requires
        old(gp).atomicstatus == GRUNNING,
        placed(old(gp).stack, page),
        placed(new_stack, page),
        grown_size((old(gp).stack.hi - old(gp).stack.lo) as u64) == Some(
            (new_stack.hi - new_stack.lo) as u64,
        ),
        mem@.len() == words(old(gp).stack),
    ensures
        *final(gp) == restacked(all_live(*old(gp)), new_stack),
        out@ == copied(
            mem@,
            words(old(gp).stack) as int,
            old(gp).stack,
            new_stack,
            page,
        ),
        *final(ctx) == x86_moved(
            *old(ctx),
            old(gp).stack.lo,
            old(gp).stack.hi,
            moved_by(old(gp).stack, new_stack),
            page,
        ),
{
    gp.sched.sp = 0;
    let old_lo: u64 = gp.stack.lo;
    let old_hi: u64 = gp.stack.hi;
    let (delta, out) = newstack(gp, new_stack, mem, page);
    update_sp_in_context(ctx, old_lo, old_hi, delta, page);
    out
}

/// The bytes by which an AArch64 instruction lowers the stack pointer before it
/// stores: `stp` of two 64-bit or two 32-bit registers, and `str` of a 64-bit
/// one, with a negative pre-index on the stack pointer.  Other instructions: 0.
pub open spec fn predecrement(instr: u32) -> u64 {
    let top = instr / 0x40_0000;
    let imm7 = (instr / 0x8000) % 128;
    let imm9 = (instr / 0x1000) % 512;
    if top == 0x2A6 && imm7 >= 64 {
        ((128 - imm7) * 8) as u64
    } else if top == 0x0A6 && imm7 >= 64 {
        ((128 - imm7) * 4) as u64
    } else if instr / 0x20_0000 == 0x7C0 && (instr / 0x400) % 4 == 3 && imm9 >= 256 {
        (512 - imm9) as u64
    } else {
        0
    }
}

/// Finds by how many bytes the instruction at which a thread faulted has lowered
/// the stack pointer already.
pub fn sp_predecrement(instr: u32) -> (n: u64)
    ensures
        n == predecrement(instr),
        n <= 512,
{
    assert((instr >> 22u32) & 0x3FF == instr / 0x40_0000) by (bit_vector);
    assert((instr >> 15u32) & 0x7F == (instr / 0x8000) % 128) by (bit_vector);
    assert((instr >> 21u32) & 0x7FF == instr / 0x20_0000) by (bit_vector);
    assert((instr >> 10u32) & 3 == (instr / 0x400) % 4) by (bit_vector);
    assert((instr >> 12u32) & 0x1FF == (instr / 0x1000) % 512) by (bit_vector);
    let top: u32 = (instr >> 22u32) & 0x3FF;
    let imm7: u32 = (instr >> 15u32) & 0x7F;
    if top == 0x2A6 {
        if imm7 >= 64 {
            return ((128 - imm7) * 8) as u64;
        }
    }
    if top == 0x0A6 {
        if imm7 >= 64 {
            return ((128 - imm7) * 4) as u64;
        }
    }
    if (instr >> 21u32) & 0x7FF == 0x7C0 && (instr >> 10u32) & 3 == 3 {
        let imm9: u32 = (instr >> 12u32) & 0x1FF;
        if imm9 >= 256 {
            return (512 - imm9) as u64;
        }
    }
    0
}

/// The general registers of AArch64 after the stack has moved.
pub open spec fn arm_x_moved(x: Seq<u64>, lo: u64, hi: u64, delta: int, page: u64) -> Seq<u64> {
    Seq::new(
        x.len(),
        |i: int|
            if i <= 18 {
                relocated(x[i], guard_lo(lo, page), lo as int, delta)
            } else if i <= 29 {
                relocated(x[i], guard_lo(lo, page), hi as int, delta)
            } else {
                x[i]
            },
    )
}

/// As `update_sp_in_context`, on AArch64.  The instruction at the fault will be
/// run again, so what it has taken off the stack pointer is put back first.
pub fn update_sp_in_arm_context(
    ctx: &mut ArmRegs,
    old_lo: u64,
    old_hi: u64,
    delta: i64,
    page: u64,
    instr: Option<u32>,
)
    requires
        old(ctx).x@.len() == 31,
        old_lo <= old_hi,
        can_move(guard_lo(old_lo, page), old_hi as int, delta as int),
        old(ctx).sp + 512 <= u64::MAX,
    ensures
        final(ctx).x@ == arm_x_moved(old(ctx).x@, old_lo, old_hi, delta as int, page),
        final(ctx).sp == relocated(
            old(ctx).sp,
            guard_lo(old_lo, page),
            old_hi as int,
            delta as int,
        ) + (match instr {
            Some(i) => predecrement(i) as int,
            None => 0,
        }),
        final(ctx).pc == old(ctx).pc,
{
    let guard: u64 = old_lo.saturating_sub(page);
    ctx.sp = adj(ctx.sp, guard, old_hi, delta);
    let ghost x0 = ctx.x@;
    let ghost moved = arm_x_moved(x0, old_lo, old_hi, delta as int, page);
    let mut i: usize = 0;
    while i < 30
        invariant
            i <= 30,
            ctx.x@.len() == 31,
            x0.len() == 31,
            moved == arm_x_moved(x0, old_lo, old_hi, delta as int, page),
            old_lo <= old_hi,
            guard == guard_lo(old_lo, page),
            can_move(guard as int, old_hi as int, delta as int),
            forall|k: int| 0 <= k < i ==> ctx.x@[k] == moved[k],
            forall|k: int| i <= k < 31 ==> ctx.x@[k] == x0[k],
            ctx.pc == old(ctx).pc,
            ctx.sp == relocated(
                old(ctx).sp,
                guard_lo(old_lo, page),
                old_hi as int,
                delta as int,
            ),
        decreases 30 - i,
    {
        let v: u64 = ctx.x[i];
        if i <= 18 {
            ctx.x[i] = adj(v, guard, old_lo, delta);
        } else {
            ctx.x[i] = adj(v, guard, old_hi, delta);
        }
        i = i + 1;
    }
    assert(ctx.x@ =~= moved);
    if let Some(w) = instr {
        ctx.sp = ctx.sp + sp_predecrement(w);
    }
}

/// As `try_grow_stack_from_signal`, on AArch64.  `instr` is the instruction at
/// the fault, where it is known.
pub fn try_grow_stack_from_arm_signal(
    gp: &mut G,
    new_stack: Stack,
    mem: &Vec<u64>,
    page: u64,
    ctx: &mut ArmRegs,
    instr: Option<u32>,
) -> (out: Vec<u64>)
    requires
        old(gp).atomicstatus == GRUNNING,
        placed(old(gp).stack, page),
        placed(new_stack, page),
        grown_size((old(gp).stack.hi - old(gp).stack.lo) as u64) == Some(
            (new_stack.hi - new_stack.lo) as u64,
        ),
        mem@.len() == words(old(gp).stack),
        old(ctx).x@.len() == 31,
        old(ctx).sp + 512 <= u64::MAX,
    ensures
        *final(gp) == restacked(all_live(*old(gp)), new_stack),
        out@ == copied(
            mem@,
            words(old(gp).stack) as int,
            old(gp).stack,
            new_stack,
            page,
        ),
        final(ctx).x@ == arm_x_moved(
            old(ctx).x@,
            old(gp).stack.lo,
            old(gp).stack.hi,
            moved_by(old(gp).stack, new_stack),
            page,
        ),
        final(ctx).sp == relocated(
            old(ctx).sp,
            guard_lo(old(gp).stack.lo, page),
            old(gp).stack.hi as int,
            moved_by(old(gp).stack, new_stack),
        ) + (match instr {
            Some(i) => predecrement(i) as int,
            None => 0,
        }),
        final(ctx).pc == old(ctx).pc,
{
    gp.sched.sp = 0;
    let old_lo: u64 = gp.stack.lo;
    let old_hi: u64 = gp.stack.hi;
    let (delta, out) = newstack(gp, new_stack, mem, page);
    update_sp_in_arm_context(ctx, old_lo, old_hi, delta, page, instr);
    out
}

/// An address on the old stack keeps its distance from the top when it moves,
/// and lands on the new stack.
pub proof fn move_keeps_distance_from_top(a: u64, from: Stack, to: Stack, page: u64)
    requires
        placed(from, page),
        placed(to, page),
        from.hi - from.lo <= to.hi - to.lo,
        from.lo <= a < from.hi,
    ensures
        ({
            let b = relocated(a, guard_lo(from.lo, page), from.hi as int, moved_by(from, to));
            to.hi - b == from.hi - a && to.lo <= b < to.hi
        }),
{
}

/// A pointer into the stack still points at its word after the move: the word
/// it pointed at has come along, moved if it was a pointer itself.
pub proof fn moved_pointer_finds_its_word(
    mem: Seq<u64>,
    a: u64,
    sp: u64,
    from: Stack,
    to: Stack,
    page: u64,
)
    requires
        placed(from, page),
        placed(to, page),
        from.hi - from.lo <= to.hi - to.lo,
        mem.len() == words(from),
        live_start(sp, from) % 8 == 0,
        live_start(sp, from) <= a < from.hi,
        a % 8 == 0,
    ensures
        ({
            let live = (from.hi - live_start(sp, from)) / 8;
            let b = relocated(a, guard_lo(from.lo, page), from.hi as int, moved_by(from, to));
            copied(mem, live, from, to, page)[(b - to.lo) / 8] == relocated(
                mem[(a - from.lo) / 8],
                guard_lo(from.lo, page),
                from.hi as int,
                moved_by(from, to),
            )
        }),
{
    let b = relocated(a, guard_lo(from.lo, page), from.hi as int, moved_by(from, to));
    let n = words(to) as int;
    let j = (b - to.lo) / 8;
    assert(n - j == (from.hi - a) / 8);
    assert(mem.len() - (n - j) == (a - from.lo) / 8);
}

/// What does not point into the old stack or its guard page is never changed.
pub proof fn other_values_stand_still(v: u64, from: Stack, page: u64, delta: int)
    requires
        v < guard_lo(from.lo, page) || v >= from.hi,
    ensures
        relocated(v, guard_lo(from.lo, page), from.hi as int, delta) == v,
{
}

/// A goroutine that was resumed after growing has a stack twice as large, or as
/// large as stacks get, its stack pointer at the old distance from the top, and
/// more room below it.
pub proof fn growth_makes_room(g: G, to: Stack, page: u64)
    requires
        placed(g.stack, page),
        placed(to, page),
        wants_growth(g) == Some((to.hi - to.lo) as u64),
        g.stack.lo <= g.sched.sp < g.stack.hi,
    ensures
        ({
            let h = restacked(g, to);
            &&& h.stack.hi - h.sched.sp == g.stack.hi - g.sched.sp
            &&& h.sched.sp - h.stack.lo > g.sched.sp - g.stack.lo
            &&& h.stack.hi - h.stack.lo == 2 * (g.stack.hi - g.stack.lo) || h.stack.hi - h.stack.lo
                == STACK_MAX
        }),
{
}

/// A pointer into the old stack or its guard page, and where it points after the
/// move: on the new stack or below it, at the same distance from the top.
pub open spec fn follows(before: u64, after: u64, from: Stack, to: Stack, page: u64) -> bool {
    if from.lo - page <= before < from.hi {
        after == before + (to.hi - from.hi)
    } else {
        after == before
    }
}

/// The same of a register that a call may destroy: it is moved only if it points
/// into the guard page.
pub open spec fn follows_in_guard(
    before: u64,
    after: u64,
    from: Stack,
    to: Stack,
    page: u64,
) -> bool {
    if from.lo - page <= before < from.lo {
        after == before + (to.hi - from.hi)
    } else {
        after == before
    }
}

/// The stacks, with their guard pages, have no address in common.
pub open spec fn apart(a: Stack, b: Stack, page: u64) -> bool {
    a.hi <= b.lo - page || b.hi <= a.lo - page
}

/// Every register that a call keeps, and the stack and frame pointers, follow the
/// stack: whatever pointed into the old one, or its guard page, points at the same
/// distance from the top of the new one, and no longer into the old; whatever
/// pointed elsewhere is left alone.
pub proof fn registers_follow_the_stack(c: X86Regs, from: Stack, to: Stack, page: u64)
    requires
        placed(from, page),
        placed(to, page),
        from.hi - from.lo <= to.hi - to.lo,
    ensures
        ({
            let d = x86_moved(c, from.lo, from.hi, moved_by(from, to), page);
            &&& follows(c.rsp, d.rsp, from, to, page)
            &&& follows(c.rbp, d.rbp, from, to, page)
            &&& follows(c.rbx, d.rbx, from, to, page)
            &&& follows(c.r12, d.r12, from, to, page)
            &&& follows(c.r13, d.r13, from, to, page)
            &&& follows(c.r14, d.r14, from, to, page)
            &&& follows(c.r15, d.r15, from, to, page)
            &&& follows_in_guard(c.rax, d.rax, from, to, page)
            &&& follows_in_guard(c.rcx, d.rcx, from, to, page)
            &&& follows_in_guard(c.rdx, d.rdx, from, to, page)
            &&& follows_in_guard(c.rsi, d.rsi, from, to, page)
            &&& follows_in_guard(c.rdi, d.rdi, from, to, page)
            &&& follows_in_guard(c.r8, d.r8, from, to, page)
            &&& follows_in_guard(c.r9, d.r9, from, to, page)
            &&& follows_in_guard(c.r10, d.r10, from, to, page)
            &&& follows_in_guard(c.r11, d.r11, from, to, page)
            &&& d.rip == c.rip
        }),
{
}

/// After the move, no register that a call keeps points into a stack that was left
/// behind.
pub proof fn nothing_points_into_the_old_stack(
    c: X86Regs,
    from: Stack,
    to: Stack,
    page: u64,
    r: u64,
)
    requires
        placed(from, page),
        placed(to, page),
        from.hi - from.lo <= to.hi - to.lo,
        apart(from, to, page),
        ({
            let d = x86_moved(c, from.lo, from.hi, moved_by(from, to), page);
            r == d.rsp || r == d.rbp || r == d.rbx || r == d.r12 || r == d.r13 || r == d.r14 || r
                == d.r15
        }),
    ensures
        r < from.lo - page || r >= from.hi,
{
}

/// The same of the registers of AArch64: the registers from 19 to 29 follow the
/// stack; those up to 18 follow the guard page; the link register and the program
/// counter stay.
pub proof fn arm_registers_follow_the_stack(
    x: Seq<u64>,
    from: Stack,
    to: Stack,
    page: u64,
    i: int,
)
    requires
        placed(from, page),
        placed(to, page),
        from.hi - from.lo <= to.hi - to.lo,
        x.len() == 31,
        0 <= i < 31,
    ensures
        ({
            let y = arm_x_moved(x, from.lo, from.hi, moved_by(from, to), page);
            &&& y.len() == 31
            &&& 19 <= i <= 29 ==> follows(x[i], y[i], from, to, page)
            &&& i <= 18 ==> follows_in_guard(x[i], y[i], from, to, page)
            &&& i == 30 ==> y[i] == x[i]
            &&& 19 <= i <= 29 && apart(from, to, page) ==> y[i] < from.lo - page || y[i] >= from.hi
        }),
{
}

/// A word of the live part of a stack is, at the same distance from the top of the
/// new one, what it was, or, if it pointed into the old stack or its guard page,
/// follows it.  Below the live part the new stack is empty.
pub proof fn every_live_word_comes_along(
    mem: Seq<u64>,
    live: int,
    from: Stack,
    to: Stack,
    page: u64,
    k: int,
)
    requires
        placed(from, page),
        placed(to, page),
        from.hi - from.lo <= to.hi - to.lo,
        mem.len() == words(from),
        0 <= live <= mem.len(),
        1 <= k <= words(to),
    ensures
        ({
            let out = copied(mem, live, from, to, page);
            &&& out.len() == (to.hi - to.lo) / 8
            &&& k <= live ==> follows(mem[mem.len() - k], out[out.len() - k], from, to, page)
            &&& k > live ==> out[out.len() - k] == 0
        }),
{
}

/// What counts as live begins at the saved stack pointer, if that lies on the
/// stack, and is else the whole stack.
pub proof fn nothing_live_is_left_behind(sp: u64, s: Stack)
    requires
        s.lo < s.hi,
    ensures
        s.lo <= live_start(sp, s) < s.hi,
        s.lo <= sp < s.hi && sp != 0 ==> live_start(sp, s) == sp,
        sp < s.lo || sp >= s.hi ==> live_start(sp, s) == s.lo,
{
}

/// A goroutine that has moved to a new stack is the same goroutine: only its
/// stack, its guard, and the saved pointers into the old stack are different, and
/// those are at the same distance from the top.
pub proof fn moving_changes_only_the_stack(g: G, to: Stack, page: u64)
    requires
        placed(g.stack, page),
        placed(to, page),
        g.stack.hi - g.stack.lo <= to.hi - to.lo,
    ensures
        ({
            let h = restacked(g, to);
            let by = to.hi - g.stack.hi;
            &&& h.stack == to
            &&& h.stackguard0 == to.lo + 928
            &&& h.sched.sp == (if g.stack.lo <= g.sched.sp < g.stack.hi {
                g.sched.sp + by
            } else {
                g.sched.sp as int
            })
            &&& h.sched.bp == (if g.stack.lo <= g.sched.bp < g.stack.hi {
                g.sched.bp + by
            } else {
                g.sched.bp as int
            })
            &&& h.sched.pc == g.sched.pc && h.sched.g == g.sched.g && h.sched.ctxt == g.sched.ctxt
            &&& h.sched.ret == g.sched.ret && h.sched.lr == g.sched.lr
            &&& h.m == g.m && h.atomicstatus == g.atomicstatus && h.selectdone == g.selectdone
            &&& h.goid == g.goid && h.param == g.param && h.waitreason == g.waitreason
            &&& h.preempt == g.preempt && h.park_unlock == g.park_unlock && h.waiting_wg
                == g.waiting_wg
        }),
{
}

/// Of a goroutine that was caught running, only the saved stack pointer is
/// forgotten, which is out of date; so its whole stack counts as live.
pub proof fn a_running_stack_is_all_live(g: G)
    requires
        g.stack.lo < g.stack.hi,
    ensures
        live_start(all_live(g).sched.sp, g.stack) == g.stack.lo,
        all_live(g).stack == g.stack,
        all_live(g) == (G { sched: all_live(g).sched, ..g }),
        all_live(g).sched.pc == g.sched.pc && all_live(g).sched.bp == g.sched.bp
            && all_live(g).sched.ctxt == g.sched.ctxt && all_live(g).sched.lr == g.sched.lr
            && all_live(g).sched.g == g.sched.g && all_live(g).sched.ret == g.sched.ret,
{
}

/// A stack that grows doubles, as long as it stays within one gibibyte; else it
/// becomes as large as that; at that size it grows no more.
pub proof fn a_stack_doubles(size: u64)
    ensures
        size <= 0x2000_0000 ==> grown_size(size) == Some((2 * size) as u64),
        0x2000_0000 <= size < 0x4000_0000 ==> grown_size(size) == Some(0x4000_0000u64),
        size >= 0x4000_0000 ==> grown_size(size) is None,
{
}

/// A goroutine that is to be resumed gets a larger stack exactly when fewer than
/// 928 bytes are left below its stack pointer, and it can still grow.
pub proof fn growth_comes_in_time(g: G)
    requires
        g.stack.lo < g.stack.hi,
    ensures
        wants_growth(g) is Some <==> g.sched.sp != 0 && g.sched.sp - g.stack.lo < 928 && g.stack.hi
            - g.stack.lo < 0x4000_0000,
        wants_growth(g) is Some ==> wants_growth(g)->0 > g.stack.hi - g.stack.lo,
{
}

/// A fault is taken for a stack that ran out exactly when it hit the guard page of
/// the goroutine that runs.  It then grows, or has overflowed if it cannot.
pub proof fn only_the_guard_page_makes_a_stack_grow(addr: u64, g: G, page: u64)
    requires
        page <= g.stack.lo < g.stack.hi,
    ensures
        ({
            let f = fault_kind(addr, Some(g), page);
            let size = g.stack.hi - g.stack.lo;
            let hit = g.stack.lo - page <= addr < g.stack.lo;
            &&& f is Other <==> !hit
            &&& f is Overflow <==> hit && size >= 0x4000_0000
            &&& f is Grow <==> hit && size < 0x4000_0000
            &&& f is Grow && size <= 0x2000_0000 ==> f == Fault::Grow((2 * size) as u64)
            &&& f is Grow && size > 0x2000_0000 ==> f == Fault::Grow(0x4000_0000)
        }),
        fault_kind(addr, None, page) is Other,
{
}

/// The instructions that lower the stack pointer before they store are known by
/// their encoding, whichever registers they store, and so is by how much: `stp` of
/// two 64-bit registers, of two 32-bit registers, and `str` of a 64-bit register.
pub proof fn pre_indexed_stores_are_known(k: int, regs: int)
    requires
        0 <= regs < 0x8000,
    ensures
        1 <= k <= 64 ==> predecrement((0xA980_0000 + (128 - k) * 0x8000 + regs) as u32) == 8 * k,
        1 <= k <= 64 ==> predecrement((0x2980_0000 + (128 - k) * 0x8000 + regs) as u32) == 4 * k,
        1 <= k <= 256 && regs < 0x400 ==> predecrement(
            (0xF800_0C00 + (512 - k) * 0x1000 + regs) as u32,
        ) == k,
{
    if 1 <= k <= 64 {
        let a = (0xA980_0000 + (128 - k) * 0x8000 + regs) as u32;
        assert(a / 0x40_0000 == 0x2A6);
        assert((a / 0x8000) % 128 == 128 - k);
        let b = (0x2980_0000 + (128 - k) * 0x8000 + regs) as u32;
        assert(b / 0x40_0000 == 0x0A6);
        assert((b / 0x8000) % 128 == 128 - k);
    }
    if 1 <= k <= 256 && regs < 0x400 {
        let c = (0xF800_0C00 + (512 - k) * 0x1000 + regs) as u32;
        assert(c / 0x40_0000 == 0x3E0);
        assert(c / 0x20_0000 == 0x7C0);
        assert((c / 0x400) % 4 == 3);
        assert((c / 0x1000) % 512 == 512 - k);
    }
}

/// No other instruction counts as one that lowers the stack pointer.
pub proof fn other_instructions_lower_nothing(instr: u32)
    requires
        predecrement(instr) != 0,
    ensures
        0xA9A0_0000 <= instr < 0xA9C0_0000 || 0x29A0_0000 <= instr < 0x29C0_0000 || 0xF810_0C00
            <= instr < 0xF820_0000 && (instr / 0x400) % 4 == 3,
{
    assert(instr / 0x40_0000 == 0x2A6 && (instr / 0x8000) % 128 >= 64 ==> 0xA9A0_0000 <= instr
        && instr < 0xA9C0_0000) by (bit_vector);
    assert(instr / 0x40_0000 == 0x0A6 && (instr / 0x8000) % 128 >= 64 ==> 0x29A0_0000 <= instr
        && instr < 0x29C0_0000) by (bit_vector);
    assert(instr / 0x20_0000 == 0x7C0 && (instr / 0x400) % 4 == 3 && (instr / 0x1000) % 512 >= 256
        ==> 0xF810_0C00 <= instr && instr < 0xF820_0000) by (bit_vector);
}

/// A new goroutine's stack is 32 KiB in release builds; in debug builds it is half
/// of that on Linux and twice that elsewhere.
pub proof fn new_stacks_depend_on_the_build(profile: Profile)
    ensures
        initial_stack(Profile::Release) == 32 * 1024,
        2 * initial_stack(Profile::LinuxDebug) == initial_stack(Profile::Release),
        initial_stack(Profile::MacOsDebug) == 2 * initial_stack(Profile::Release),
        initial_stack(Profile::WindowsDebug) == initial_stack(Profile::MacOsDebug),
        initial_stack(profile) % 4096 == 0,
        grown_size(initial_stack(profile)) is Some,
{
}

/// A failure tells the system and the call that failed.
pub proof fn failures_are_told_apart(a: AllocError, b: AllocError, s: System, t: System)
    requires
        a.text(s) == b.text(t),
    ensures
        a == b,
        s == t,
{
    reveal_strlit("stack_alloc_size: mmap failed");
    reveal_strlit("stack_alloc_size: mprotect guard page failed");
    reveal_strlit("stack_alloc_size: VirtualAlloc failed");
    reveal_strlit("stack_alloc_size: VirtualProtect guard page failed");
    assert(AllocError::MapFailed.text(System::Unix).len() == 29);
    assert(AllocError::GuardFailed.text(System::Unix).len() == 44);
    assert(AllocError::MapFailed.text(System::Windows).len() == 37);
    assert(AllocError::GuardFailed.text(System::Windows).len() == 50);
}

/// The mapping of a stack begins one page below it, at the guard page, and ends
/// where the stack does.
pub proof fn a_mapping_holds_stack_and_guard(s: Stack, page: u64)
    requires
        page <= s.lo <= s.hi,
    ensures
        mapping_of(s, page).base == s.lo - page,
        mapping_of(s, page).base + mapping_of(s, page).total == s.hi,
        guard_lo(s.lo, page) == mapping_of(s, page).base,
        s.lo % 8 == 0 && s.hi % 8 == 0 ==> 8 * words(s) == s.hi - s.lo,
{
}

/// Copying a stack leaves the goroutine as it is but for its saved stack and frame
/// pointers; it goes to another stack only afterwards.
pub proof fn copying_moves_only_pointers(g: G, from: Stack, to: Stack)
    ensures
        ({
            let h = context_moved(g, from, to);
            &&& h == (G { sched: h.sched, ..g })
            &&& h.sched == (super::g::Gobuf { sp: h.sched.sp, bp: h.sched.bp, ..g.sched })
            &&& moved_by(from, to) + from.hi == to.hi
        }),
{
}

} // verus!
