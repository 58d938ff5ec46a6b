//! Signals: which goroutine may be stopped, and what is said of a fault.

use go_lib::runtime::fault::{
    bus_report, read_exception, render, scan_range, sigsegv_fallback, sigurg_fallback,
    veh_file_report, veh_filter, veh_report, veh_short_report, write_hex, BusError, Fallback,
    G0Stack, Line, PrevHandler, RegDump, STATUS_ACCESS_VIOLATION, STATUS_STACK_OVERFLOW,
};
use go_lib::runtime::g::{Stack, G, GRUNNING, GSCAN, GWAITING};
use go_lib::runtime::preempt::{
    pc_in_our_text, pc_in_scheduler_asm, redirect_arm_to_async_preempt, redirect_to_async_preempt,
    sigurg_handler, Interrupted, SignalAction,
};
use go_lib::runtime::run::StackWrite;
use go_lib::runtime::stack::{ArmRegs, X86Regs};

const ANCHOR: u64 = 0x5555_0000_0000;

fn regs() -> X86Regs {
    X86Regs {
        rax: 1,
        rbx: 2,
        rcx: 3,
        rdx: 4,
        rsi: 5,
        rdi: 6,
        rbp: 7,
        rsp: 0x20000,
        r8: 8,
        r9: 9,
        r10: 10,
        r11: 11,
        r12: 12,
        r13: 13,
        r14: 14,
        r15: 15,
        rip: 0x4000,
    }
}

#[test]
fn own_code_is_recognised() {
    assert!(pc_in_our_text(123, 0));
    assert!(pc_in_our_text(ANCHOR, ANCHOR));
    assert!(pc_in_our_text(ANCHOR + 0x0FFF_FFFF, ANCHOR));
    assert!(!pc_in_our_text(ANCHOR + 0x1000_0000, ANCHOR));
    assert!(pc_in_our_text(ANCHOR - 0x0FFF_FFFF, ANCHOR));
    assert!(!pc_in_our_text(ANCHOR - 0x1000_0000, ANCHOR));
}

#[test]
fn switching_code_is_recognised() {
    let bases = vec![0x10_0000, 0x20_0000];
    assert!(pc_in_scheduler_asm(0x20_0FFF, &bases));
    assert!(pc_in_scheduler_asm(0x0F_F001, &bases));
    assert!(!pc_in_scheduler_asm(0x20_1000, &bases));
    assert!(!pc_in_scheduler_asm(0x15_0000, &bases));
    assert!(!pc_in_scheduler_asm(0x10_0000, &vec![]));
}

#[test]
fn goroutine_is_stopped_only_where_it_can_be() {
    let mut g = G::new(0, Stack { lo: 0x10000, hi: 0x20000 }, 1);
    g.atomicstatus = GRUNNING;
    g.preempt = true;
    let bases = vec![ANCHOR + 0x10_0000];
    let at = Interrupted { pc: ANCHOR, sp: 0x18000, locks: Some(0), anchor: ANCHOR };
    let ask = |g: &G, at: Interrupted| sigurg_handler(Some(g), at, &bases);
    assert_eq!(ask(&g, at), SignalAction::Redirect);
    assert_eq!(ask(&g, Interrupted { locks: None, ..at }), SignalAction::Redirect);
    assert_eq!(ask(&g, Interrupted { sp: 0x20000, ..at }), SignalAction::Redirect);
    assert_eq!(ask(&g, Interrupted { sp: 0x11000, ..at }), SignalAction::Redirect);
    assert_eq!(sigurg_handler(None, at, &bases), SignalAction::Chain);
    for bad in [
        Interrupted { locks: Some(1), ..at },
        Interrupted { pc: 0x1000, ..at },
        Interrupted { pc: ANCHOR + 0x10_0010, ..at },
        Interrupted { sp: 0x20008, ..at },
        Interrupted { sp: 0xFFF8, ..at },
        Interrupted { sp: 0x10FF8, ..at },
        Interrupted { sp: 0x18004, ..at },
    ] {
        assert_eq!(ask(&g, bad), SignalAction::Ignore, "{bad:?}");
    }
    let waiting = G { atomicstatus: GWAITING, ..g };
    assert_eq!(ask(&waiting, at), SignalAction::Ignore);
    let scanned = G { atomicstatus: GSCAN | GRUNNING, ..g };
    assert_eq!(ask(&scanned, at), SignalAction::Redirect);
    let unasked = G { preempt: false, ..g };
    assert_eq!(ask(&unasked, at), SignalAction::Chain);
}

#[test]
fn stopped_thread_returns_to_where_it_was() {
    let mut c = regs();
    let w = redirect_to_async_preempt(&mut c, 0x9000);
    assert_eq!(w, StackWrite { addr: 0x20000 - 136, value: 0x4000 });
    assert_eq!(c, X86Regs { rsp: 0x20000 - 136, rip: 0x9000, ..regs() });

    let mut a = ArmRegs { x: (0..31).collect(), sp: 0x20000, pc: 0x4000 };
    let w = redirect_arm_to_async_preempt(&mut a, 0x9000);
    assert_eq!(w, StackWrite { addr: 0x20000 - 16, value: 30 });
    assert_eq!((a.sp, a.pc, a.x[30]), (0x20000 - 16, 0x9000, 0x4000));
    assert_eq!(a.x[29], 29);
}

#[test]
fn hexadecimal_numbers() {
    let mut s = "x=".to_string();
    write_hex(&mut s, 0xDEAD_BEEF_0123_4567);
    assert_eq!(s, "x=0xdeadbeef01234567");
    write_hex(&mut s, 0);
    assert_eq!(s, "x=0xdeadbeef012345670x0000000000000000");
    let mut t = String::new();
    write_hex(&mut t, 0x89AB_CDEF);
    assert_eq!(t, "0x0000000089abcdef");
}

#[test]
fn reports_are_written_out() {
    let lines = vec![Line::Text("begin\n"), Line::Value("v = ", 16)];
    assert_eq!(render(&lines, "\n"), "begin\nv = 0x0000000000000010\n");
    assert_eq!(render(&vec![], "\n"), "");
}

#[test]
fn bus_error_in_a_goroutine() {
    let r = BusError {
        fault_addr: Some(0x10),
        stack: Some(Stack { lo: 0x1000, hi: 0x2000 }),
        regs: RegDump::LinuxX86 { rip: 0x30, rsp: 0x40 },
        g0: G0Stack::At(Stack { lo: 0x5000, hi: 0x6000 }),
        scan: vec![(1, 2)],
    };
    assert_eq!(
        render(&bus_report(&r), "\n"),
        "[go-lib SIGBUS] fault_addr = 0x0000000000000010\n\
         [go-lib SIGBUS] stack.lo = 0x0000000000001000\n\
         [go-lib SIGBUS] stack.hi = 0x0000000000002000\n\
         [go-lib SIGBUS] crash (non-stack fault)\n\
         [go-lib SIGBUS] RIP = 0x0000000000000030\n\
         [go-lib SIGBUS] RSP = 0x0000000000000040\n\
         [go-lib SIGBUS] g0.stack.lo = 0x0000000000005000\n\
         [go-lib SIGBUS] g0.stack.hi = 0x0000000000006000\n"
    );
}

#[test]
fn bus_error_outside_the_scheduler() {
    let r = BusError {
        fault_addr: None,
        stack: None,
        regs: RegDump::Unknown,
        g0: G0Stack::NoThread,
        scan: vec![],
    };
    assert_eq!(
        render(&bus_report(&r), "\n"),
        "[go-lib SIGBUS] crash (non-stack fault)\n[go-lib SIGBUS] current_m = NULL\n"
    );
    let arm = BusError { regs: RegDump::LinuxArm { pc: 1, sp: 2, lr: 3 }, ..r };
    let text = render(&bus_report(&arm), "\n");
    assert!(text.contains("[go-lib SIGBUS] LR = 0x0000000000000003\n"));
    let bare = BusError { regs: RegDump::Unknown, g0: G0Stack::Unknown, ..arm };
    assert_eq!(render(&bus_report(&bare), "\n"), "[go-lib SIGBUS] crash (non-stack fault)\n");
}

#[test]
fn bus_error_with_the_whole_context() {
    let mut r = BusError {
        fault_addr: None,
        stack: None,
        regs: RegDump::MacX86 { regs: regs(), below: Some(0x77) },
        g0: G0Stack::At(Stack { lo: 0x1F000, hi: 0x20008 }),
        scan: vec![(0x1FFF8, 0x77), (0x20000, 0x88)],
    };
    let text = render(&bus_report(&r), "\n");
    assert!(text.contains("[go-lib SIGBUS] [RSP-8] = 0x0000000000000077\n"));
    assert!(text.ends_with(
        "[go-lib SIGBUS] --- g0 stack scan (RSP-8 .. g0.hi) ---\n\
         [go-lib SIGBUS]  @0x000000000001fff8\n\
         [go-lib SIGBUS]  = 0x0000000000000077\n\
         [go-lib SIGBUS]  @0x0000000000020000\n\
         [go-lib SIGBUS]  = 0x0000000000000088\n"
    ));
    r.regs = RegDump::MacX86 { regs: X86Regs { rsp: 4, ..regs() }, below: Some(0x77) };
    assert!(!render(&bus_report(&r), "\n").contains("[RSP-8]"));
    r.regs = RegDump::MacArm { pc: 1, lr: 2, sp: 3, fp: 4 };
    let text = render(&bus_report(&r), "\n");
    assert!(text.contains("[go-lib SIGBUS] FP = 0x0000000000000004\n"));
    assert!(!text.contains("g0 stack scan"));
}

#[test]
fn words_to_show_of_a_stack() {
    let all = scan_range(0x1000, 0x9000);
    assert_eq!(all.len(), 20);
    assert_eq!((all[0], all[1], all[19]), (0xFF8, 0x1000, 0xFF8 + 152));
    assert_eq!(scan_range(0x1000, 0x1008), vec![0xFF8, 0x1000]);
    assert_eq!(scan_range(0x1000, 0xFF8), Vec::<u64>::new());
    assert_eq!(scan_range(4, 13), vec![4, 12]);
}

#[test]
fn signals_for_somebody_else() {
    assert_eq!(sigsegv_fallback(None), Fallback::Raise);
    assert_eq!(sigsegv_fallback(Some(PrevHandler::Default)), Fallback::Raise);
    assert_eq!(sigsegv_fallback(Some(PrevHandler::Ignore)), Fallback::Raise);
    assert_eq!(sigsegv_fallback(Some(PrevHandler::Function)), Fallback::Chain);
    assert_eq!(sigurg_fallback(None), Fallback::Drop);
    assert_eq!(sigurg_fallback(Some(PrevHandler::Default)), Fallback::Drop);
    assert_eq!(sigurg_fallback(Some(PrevHandler::Function)), Fallback::Chain);
}

fn put(bytes: &mut Vec<u8>, at: usize, v: u64) {
    bytes[at..at + 8].copy_from_slice(&v.to_le_bytes());
}

#[test]
fn exception_is_read_and_reported() {
    let mut record = vec![0; 48];
    record[..4].copy_from_slice(&STATUS_ACCESS_VIOLATION.to_le_bytes());
    put(&mut record, 16, 0x4000);
    record[24] = 2;
    put(&mut record, 32, 1);
    put(&mut record, 40, 0x1122_3344_5566_7788);
    let mut context = vec![0; 256];
    put(&mut context, 248, 0x4000);
    put(&mut context, 152, 0x20000);
    put(&mut context, 120, 0xA);
    let e = read_exception(&record, &context);
    assert_eq!(e.code, STATUS_ACCESS_VIOLATION);
    assert_eq!((e.fault_type, e.fault_addr), (1, 0x1122_3344_5566_7788));
    assert_eq!((e.rip, e.rsp, e.rax), (0x4000, 0x20000, 0xA));
    let text = render(&veh_report(&e), "\r\n");
    assert!(text.starts_with("[go-lib VEH] exception code   : 0x00000000c0000005\r\n"));
    assert!(text.contains("[go-lib VEH] fault_addr  : 0x1122334455667788\r\n"));
    assert!(text.contains("[go-lib VEH] RAX : 0x000000000000000a\r\n"));
    assert_eq!(
        render(&veh_short_report(&e), "\r\n"),
        "[go-lib VEH] exception code   : 0x00000000c0000005\r\n\
         [go-lib VEH] ExceptionAddress : 0x0000000000004000\r\n\
         [go-lib VEH] RIP : 0x0000000000004000\r\n\
         [go-lib VEH] RSP : 0x0000000000020000\r\n"
    );
    assert_eq!(veh_file_report(&e).len(), 10);
    // With fewer parameters nothing is known of the address.
    record[24] = 1;
    let e = read_exception(&record, &context);
    assert_eq!((e.fault_type, e.fault_addr), (0, 0));
    assert_eq!(veh_report(&e).len(), 13);
    assert_eq!(veh_file_report(&e).len(), 8);
}

#[test]
fn exception_is_reported_once() {
    let mut handling = false;
    assert!(!veh_filter(&mut handling, 0x8000_0003));
    assert!(!handling);
    assert!(veh_filter(&mut handling, STATUS_STACK_OVERFLOW));
    assert!(handling);
    assert!(!veh_filter(&mut handling, STATUS_ACCESS_VIOLATION));
    assert!(handling);
}
