//! Stacks: how they are laid out, and how they grow.

use go_lib::runtime::g::{Stack, G, GRUNNING, STACK_GUARD};
use go_lib::runtime::stack::{
    classify_fault, copystack, goroutine_stack_bytes, grow_stack_if_needed, growth_needed,
    mapping_size, newstack, next_size, sp_predecrement, stack_alloc_size, stack_free,
    try_grow_stack_from_arm_signal, try_grow_stack_from_signal, update_sp_in_arm_context,
    update_sp_in_context, AllocError, AllocFailure, ArmRegs, Fault, Mapping, Profile, System,
    X86Regs, STACK_MAX,
};

const PAGE: u64 = 4096;

fn running(stack: Stack) -> G {
    let mut g = G::new(0, stack, 1);
    g.atomicstatus = GRUNNING;
    g
}

fn no_regs() -> X86Regs {
    X86Regs {
        rax: 0,
        rbx: 0,
        rcx: 0,
        rdx: 0,
        rsi: 0,
        rdi: 0,
        rbp: 0,
        rsp: 0,
        r8: 0,
        r9: 0,
        r10: 0,
        r11: 0,
        r12: 0,
        r13: 0,
        r14: 0,
        r15: 0,
        rip: 0,
    }
}

#[test]
fn alloc_write_free() {
    let size = goroutine_stack_bytes(Profile::Release);
    let base = 0x7000_0000;
    let stack = stack_alloc_size(size, PAGE, Some(base), true).expect("stack_alloc failed");
    assert_eq!(stack.hi - stack.lo, size);
    assert_eq!(stack.lo % PAGE, 0);
    assert!(stack.hi > stack.lo);
    // A word at the very top of the stack moves with it.
    let mut mem = vec![0; (size / 8) as usize];
    let top = mem.len() - 1;
    mem[top] = 0xDEAD_BEEF_CAFE_BABE;
    let larger = stack_alloc_size(2 * size, PAGE, Some(0x7100_0000), true).unwrap();
    let (_, moved) = newstack(&mut running(stack), larger, &mem, PAGE);
    assert_eq!(moved[moved.len() - 1], 0xDEAD_BEEF_CAFE_BABE);
    assert_eq!(stack_free(&stack, PAGE), Mapping { base, total: size + PAGE });
}

#[test]
fn variable_size_alloc() {
    for &size in &[8 * 1024u64, 16 * 1024, 32 * 1024, 64 * 1024] {
        let stack = stack_alloc_size(size, PAGE, Some(0x10_0000), true).unwrap();
        assert_eq!(stack.hi - stack.lo, size);
        assert_eq!(stack.lo, 0x10_0000 + PAGE);
        assert_eq!(mapping_size(size, PAGE), size + PAGE);
        assert_eq!(
            stack_free(&stack, PAGE),
            Mapping { base: 0x10_0000, total: size + PAGE }
        );
    }
}

#[test]
fn initial_sizes() {
    assert_eq!(goroutine_stack_bytes(Profile::Release), 32 * 1024);
    assert_eq!(goroutine_stack_bytes(Profile::LinuxDebug), 16 * 1024);
    assert_eq!(goroutine_stack_bytes(Profile::MacOsDebug), 64 * 1024);
    assert_eq!(goroutine_stack_bytes(Profile::WindowsDebug), 64 * 1024);
}

#[test]
fn stack_that_cannot_be_made() {
    assert_eq!(
        stack_alloc_size(8192, PAGE, None, true),
        Err(AllocFailure { error: AllocError::MapFailed, unmap: None })
    );
    assert_eq!(
        stack_alloc_size(8192, PAGE, Some(0x1000), false),
        Err(AllocFailure {
            error: AllocError::GuardFailed,
            unmap: Some(Mapping { base: 0x1000, total: 12288 }),
        })
    );
    let texts = [
        (AllocError::MapFailed, System::Unix, "mmap failed"),
        (AllocError::GuardFailed, System::Unix, "mprotect guard page failed"),
        (AllocError::MapFailed, System::Windows, "VirtualAlloc failed"),
        (AllocError::GuardFailed, System::Windows, "VirtualProtect guard page failed"),
    ];
    for (error, system, text) in texts {
        assert_eq!(error.message(system), format!("stack_alloc_size: {text}"));
    }
}

#[test]
fn sizes_double_up_to_a_limit() {
    assert_eq!(next_size(32 * 1024), Some(64 * 1024));
    assert_eq!(next_size(STACK_MAX / 2), Some(STACK_MAX));
    assert_eq!(next_size(STACK_MAX - 8), Some(STACK_MAX));
    assert_eq!(next_size(STACK_MAX), None);
    let mut size = 2048;
    let mut steps = 0;
    while let Some(n) = next_size(size) {
        assert!(size < n && n <= STACK_MAX);
        size = n;
        steps += 1;
    }
    assert_eq!((size, steps), (STACK_MAX, 19));
}

#[test]
fn live_words_are_copied_and_moved() {
    let old = Stack { lo: 0x10000, hi: 0x10040 };
    let new = Stack { lo: 0x20000, hi: 0x20080 };
    let mut g = running(old);
    g.sched.sp = 0x10020;
    g.sched.bp = 0x10030;
    // Below the stack pointer lies rubbish, above it a plain number, a pointer
    // into the stack, one into the guard page, and one past the top.
    let mem = vec![0x10020, 0x10020, 0x10020, 0x10020, 7, 0x10038, 0xF010, 0x10040];
    let (delta, out) = copystack(&mut g, &old, &new, &mem, PAGE);
    assert_eq!(delta, 0x10040);
    assert_eq!(out.len(), 16);
    assert!(out[..12].iter().all(|w| *w == 0));
    assert_eq!(out[12..], [7, 0x20078, 0x1F050, 0x10040]);
    assert_eq!(g.sched.sp, 0x20060);
    assert_eq!(g.sched.bp, 0x20070);
    assert_eq!(g.atomicstatus, GRUNNING);
    assert_eq!(g.stack, old);
}

#[test]
fn everything_is_copied_without_a_stack_pointer() {
    let old = Stack { lo: 0x10000, hi: 0x10020 };
    let new = Stack { lo: 0x8000, hi: 0x8040 };
    let mut g = running(old);
    g.sched.sp = 0;
    let (delta, out) = copystack(&mut g, &old, &new, &vec![1, 0x10018, 3, 4], PAGE);
    assert_eq!(delta, -0x7FE0);
    assert_eq!(out, vec![0, 0, 0, 0, 1, 0x8038, 3, 4]);
    assert_eq!(g.sched.sp, 0);
}

#[test]
fn goroutine_moves_to_a_larger_stack() {
    let old = Stack { lo: 0x10000, hi: 0x10800 };
    let new = Stack { lo: 0x40000, hi: 0x41000 };
    let mut g = running(old);
    g.sched.sp = 0x10010;
    assert_eq!(growth_needed(&g), Some(4096));
    let mut mem = vec![0; 256];
    mem[2] = 42;
    let out = grow_stack_if_needed(&mut g, Some(new), &mem, PAGE).unwrap();
    assert_eq!(g.stack, new);
    assert_eq!(g.stackguard0, new.lo + STACK_GUARD);
    assert_eq!(g.sched.sp, 0x40810);
    assert_eq!(out[((g.sched.sp - new.lo) / 8) as usize], 42);
    // There is room now.
    assert_eq!(growth_needed(&running(new)), None);
    g.sched.sp = new.lo + STACK_GUARD;
    assert_eq!(growth_needed(&g), None);
    let before = g;
    assert_eq!(grow_stack_if_needed(&mut g, None, &out, PAGE), None);
    assert_eq!(g, before);
}

#[test]
fn faults_are_told_apart() {
    let g = running(Stack { lo: 0x10000, hi: 0x12000 });
    assert_eq!(classify_fault(0xFFF8, None, PAGE), Fault::Other);
    assert_eq!(classify_fault(0xFFF8, Some(&g), PAGE), Fault::Grow(0x4000));
    assert_eq!(classify_fault(0xF000, Some(&g), PAGE), Fault::Grow(0x4000));
    assert_eq!(classify_fault(0xEFFF, Some(&g), PAGE), Fault::Other);
    assert_eq!(classify_fault(0x10000, Some(&g), PAGE), Fault::Other);
    assert_eq!(classify_fault(0, Some(&g), PAGE), Fault::Other);
    let full = running(Stack { lo: 0x10000, hi: 0x10000 + STACK_MAX });
    assert_eq!(classify_fault(0xFFF8, Some(&full), PAGE), Fault::Overflow);
}

#[test]
fn registers_move_with_the_stack() {
    let mut c = X86Regs {
        rsp: 0xFFF8,
        rbp: 0x10010,
        rbx: 0x10018,
        r12: 0xEFFF,
        r15: 0x12000,
        rax: 0x10010,
        rdi: 0xFFF0,
        rip: 0x10010,
        ..no_regs()
    };
    update_sp_in_context(&mut c, 0x10000, 0x12000, 0x100000, PAGE);
    assert_eq!(
        c,
        X86Regs {
            rsp: 0x10FFF8,
            rbp: 0x110010,
            rbx: 0x110018,
            r12: 0xEFFF,
            r15: 0x12000,
            rax: 0x10010,
            rdi: 0x10FFF0,
            rip: 0x10010,
            ..no_regs()
        }
    );
}

#[test]
fn stack_grows_on_a_fault() {
    let old = Stack { lo: 0x10000, hi: 0x10020 };
    let new = Stack { lo: 0x20000, hi: 0x20040 };
    let mut g = running(old);
    // What was saved of the stack pointer when it last yielded tells nothing.
    g.sched.sp = 0x10018;
    let mut c = X86Regs { rsp: 0xFFF8, rbp: 0x10010, ..no_regs() };
    let out = try_grow_stack_from_signal(&mut g, new, &vec![1, 2, 0x10008, 4], PAGE, &mut c);
    assert_eq!(out, vec![0, 0, 0, 0, 1, 2, 0x20028, 4]);
    assert_eq!(c, X86Regs { rsp: 0x20018, rbp: 0x20030, ..no_regs() });
    assert_eq!(g.stack, new);
    assert_eq!(g.sched.sp, 0);
}

#[test]
fn store_instructions_are_read() {
    // stp x29, x30, [sp, #-16]!
    assert_eq!(sp_predecrement(0xA9BF_7BFD), 16);
    // stp x29, x30, [sp, #-512]!
    assert_eq!(sp_predecrement(0xA9A0_7BFD), 512);
    // stp w29, w30, [sp, #-8]!
    assert_eq!(sp_predecrement(0x29BF_7BFD), 8);
    // str x30, [sp, #-16]!
    assert_eq!(sp_predecrement(0xF81F_0FFE), 16);
    // stp x29, x30, [sp, #16]!
    assert_eq!(sp_predecrement(0xA981_7BFD), 0);
    // str x30, [sp, #16]!
    assert_eq!(sp_predecrement(0xF801_0FFE), 0);
    // str x30, [sp], #-16
    assert_eq!(sp_predecrement(0xF81F_07FE), 0);
    // nop
    assert_eq!(sp_predecrement(0xD503_201F), 0);
}

#[test]
fn arm_registers_move_with_the_stack() {
    let mut x = vec![0; 31];
    x[0] = 0x10010;
    x[18] = 0xFFF0;
    x[19] = 0x10010;
    x[29] = 0x10020;
    x[30] = 0x10010;
    let mut c = ArmRegs { x, sp: 0xFFF0, pc: 5 };
    update_sp_in_arm_context(&mut c, 0x10000, 0x12000, 0x100000, PAGE, Some(0xA9BF_7BFD));
    assert_eq!(c.sp, 0x110000);
    assert_eq!(c.x[0], 0x10010);
    assert_eq!(c.x[18], 0x10FFF0);
    assert_eq!(c.x[19], 0x110010);
    assert_eq!(c.x[29], 0x110020);
    assert_eq!(c.x[30], 0x10010);
    assert_eq!(c.pc, 5);
}

#[test]
fn stack_grows_on_an_arm_fault() {
    let old = Stack { lo: 0x10000, hi: 0x10020 };
    let new = Stack { lo: 0x20000, hi: 0x20040 };
    let mut g = running(old);
    let mut x = vec![0; 31];
    x[29] = 0x10010;
    let mut c = ArmRegs { x, sp: 0xFFF0, pc: 9 };
    let instr = Some(0xA9BF_7BFD);
    let out = try_grow_stack_from_arm_signal(&mut g, new, &vec![1, 2, 3, 4], PAGE, &mut c, instr);
    assert_eq!(out, vec![0, 0, 0, 0, 1, 2, 3, 4]);
    assert_eq!((c.sp, c.x[29], c.pc), (0x20020, 0x20030, 9));
    assert_eq!(g.stack, new);
}
