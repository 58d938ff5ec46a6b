//! Setting a scheduler up, making goroutines, waiting, and panics.

use go_lib::runtime::g::{Stack, G, GRUNNABLE, GRUNNING};
use go_lib::runtime::m::Tls;
use go_lib::runtime::p::{GlobalRunQueue, PIDLE, PRUNNING};
use go_lib::runtime::panics::{
    extract_panic_msg, handle_goroutine_panic, run_result, set_panic_handler, PanicAction,
    PanicHandler, Payload,
};
use go_lib::runtime::procs::{
    gomaxprocs, gpool_off, procs_to_add, schedinit, set_gomaxprocs, wanted_procs, Config,
};
use go_lib::runtime::run::{Arch, CorruptGobuf, Entry, Next, StackWrite};
use go_lib::runtime::sched::Rt;
use go_lib::sync::waitgroup::WaitStep;
use go_lib::sync::{Cond, WaitGroup};

const STACK_BYTES: u64 = 32 * 1024;
const ENTRY: Entry = Entry { entry_pc: 0x1000, exit_pc: 0x2000, arch: Arch::X86_64 };

fn stacks(n: u64) -> Vec<Stack> {
    (0..n).map(|i| Stack { lo: (i + 1) << 20, hi: ((i + 1) << 20) + 65536 }).collect()
}

fn scheduler(procs: i32, gpool_off: bool) -> Rt {
    let config = Config { gpool_off, debug: true, stack_bytes: STACK_BYTES };
    schedinit(procs, &stacks(procs as u64), config)
}

#[test]
fn number_of_processors_at_start() {
    assert_eq!(wanted_procs(8, None), 8);
    assert_eq!(wanted_procs(8, Some("3")), 3);
    assert_eq!(wanted_procs(8, Some("+12")), 12);
    assert_eq!(wanted_procs(8, Some("007")), 7);
    assert_eq!(wanted_procs(8, Some("256")), 256);
    for bad in ["", "+", "0", "257", "-1", "4 ", "four", "99999999999999999999", "1.5"] {
        assert_eq!(wanted_procs(8, Some(bad)), 8, "{bad}");
    }
}

#[test]
fn descriptor_pool_setting() {
    assert!(gpool_off(Some("1")));
    assert!(!gpool_off(None));
    for other in ["", "0", "11", "true"] {
        assert!(!gpool_off(Some(other)), "{other}");
    }
}

#[test]
fn number_of_processors_is_kept_in_range() {
    let mut rt = scheduler(2, false);
    assert_eq!(gomaxprocs(&rt), 2);
    assert_eq!(procs_to_add(&rt, 4), 2);
    assert_eq!(set_gomaxprocs(&mut rt, 4, &stacks(2)), 2);
    assert_eq!(gomaxprocs(&rt), 4);
    assert_eq!(rt.ps.len(), 4);
    assert!(rt.ps.iter().all(|p| p.status == PRUNNING));
    assert_eq!(procs_to_add(&rt, 0), 0);
    assert_eq!(set_gomaxprocs(&mut rt, 0, &vec![]), 4);
    assert_eq!(gomaxprocs(&rt), 1);
    assert_eq!(rt.ps.len(), 4);
    assert_eq!(procs_to_add(&rt, 1000), 255);
    assert_eq!(set_gomaxprocs(&mut rt, 4, &stacks(3)), 1);
    assert_eq!(gomaxprocs(&rt), 4);
    assert_eq!(set_gomaxprocs(&mut rt, 300, &stacks(252)), 4);
    assert_eq!(gomaxprocs(&rt), 256);
}

#[test]
fn threads_above_the_number_are_not_recruited() {
    let mut rt = scheduler(2, false);
    assert_eq!(rt.after_poll(1), Next::Sleep);
    assert_eq!((rt.idle_m.clone(), rt.idle_p.clone()), (vec![1], vec![1]));
    assert_eq!(set_gomaxprocs(&mut rt, 1, &vec![]), 2);
    rt.startm(None);
    assert_eq!((rt.idle_m.clone(), rt.idle_p.clone()), (vec![1], vec![1]));
    assert_eq!(rt.ms[1].p, None);
    assert!(!rt.ms[1].park.flag);
    assert_eq!(rt.ps[1].status, PIDLE);

    assert_eq!(set_gomaxprocs(&mut rt, 2, &stacks(1)), 1);
    rt.startm(None);
    assert!(rt.idle_m.is_empty() && rt.idle_p.is_empty());
    assert_eq!(rt.ms[1].p, Some(1));
    assert!(rt.ms[1].park.flag);
    assert_eq!(rt.ps[1].status, PRUNNING);
}

#[test]
fn wanted_processor_is_found_below_the_others() {
    let mut rt = scheduler(3, false);
    for m in [1, 0, 2] {
        assert_eq!(rt.after_poll(m), Next::Sleep);
    }
    assert_eq!(rt.idle_p, vec![1, 0, 2]);
    assert_eq!(set_gomaxprocs(&mut rt, 1, &vec![]), 3);
    rt.startm(None);
    assert_eq!(rt.idle_p, vec![1, 2]);
    assert_eq!(rt.idle_m, vec![1, 0]);
    assert_eq!(rt.ms[2].p, Some(0));
    rt.startm(None);
    assert_eq!((rt.idle_m.clone(), rt.idle_p.clone()), (vec![1, 0], vec![1, 2]));
}

#[test]
fn global_run_queue_round_trip() {
    let mut q = GlobalRunQueue::new();
    q.push_batch(&[99]);
    assert_eq!(q.len(), 1);
    assert_eq!(q.pop(), Some(99));
    assert_eq!(q.len(), 0);
    assert_eq!(q.pop(), None);
}

#[test]
fn new_goroutine_fields() {
    let mut rt = scheduler(1, false);
    let stack = Stack { lo: 0x900_0000, hi: 0x900_0000 + STACK_BYTES };
    let (gp, write) = rt.new_goroutine(7, ENTRY, Some(stack));
    let g: G = rt.gs[gp];
    assert_eq!(g.atomicstatus, GRUNNABLE, "new goroutine must start as Grunnable");
    assert_ne!(g.sched.pc, 0, "pc must be set to goroutine_entry");
    assert!(g.sched.ctxt.is_some(), "ctxt must hold the closure");
    assert_eq!(g.sched.sp, g.stack.hi - 8);
    assert_eq!(write, Some(StackWrite { addr: g.sched.sp, value: ENTRY.exit_pc }));
    let arm = Entry { arch: Arch::Aarch64, ..ENTRY };
    let other = Stack { lo: 0xA00_0000, hi: 0xA00_0000 + STACK_BYTES };
    let (gp2, write) = rt.new_goroutine(8, arm, Some(other));
    assert_eq!(rt.gs[gp2].sched.sp, rt.gs[gp2].stack.hi);
    assert_eq!(rt.gs[gp2].sched.lr, ENTRY.exit_pc);
    assert_eq!(write, None);
    // A descriptor that is put away comes back with its stack.
    assert_eq!(rt.gfree_put(gp), None);
    assert!(!rt.needs_stack());
    let (again, _) = rt.new_goroutine(9, ENTRY, None);
    assert_eq!(again, gp);
    assert_eq!(rt.gs[again].stack, stack);
    assert_ne!(rt.gs[again].goid, g.goid);
}

#[test]
fn descriptors_are_not_used_again() {
    let mut rt = scheduler(1, true);
    let stack = Stack { lo: 0x900_0000, hi: 0x900_0000 + STACK_BYTES };
    let (gp, _) = rt.new_goroutine(7, ENTRY, Some(stack));
    assert_eq!(rt.gfree_put(gp), Some(stack));
    assert!(rt.needs_stack());
    assert_eq!(rt.gfree_get(), None);
}

#[test]
fn grown_stack_is_not_kept() {
    let mut rt = scheduler(1, false);
    let stack = Stack { lo: 0x900_0000, hi: 0x900_0000 + 2 * STACK_BYTES };
    let (gp, _) = rt.new_goroutine(7, ENTRY, Some(stack));
    assert_eq!(rt.gfree_put(gp), Some(stack));
    assert!(rt.needs_stack());
    assert_eq!(rt.gfree_get(), Some(gp));
}

#[test]
fn context_that_makes_no_sense_is_not_resumed() {
    let mut rt = scheduler(1, false);
    let stack = Stack { lo: 0x900_0000, hi: 0x900_0000 + STACK_BYTES };
    let mut tls = Tls::new();
    let (gp, _) = rt.spawn_goroutine(7, ENTRY, Some(stack));
    rt.gs[gp].sched.sp = 0x1234;
    assert_eq!(
        rt.execute(&mut tls, 0, gp),
        Err(CorruptGobuf {
            gp,
            goid: rt.gs[gp].goid,
            status: rt.gs[gp].atomicstatus,
            sp: 0x1234,
            bp: 0,
            pc: ENTRY.entry_pc,
            lo: stack.lo,
            hi: stack.hi,
        })
    );
    assert_eq!(tls.g, None);
    let mut rt = scheduler(1, false);
    let (gp, _) = rt.spawn_goroutine(7, ENTRY, Some(stack));
    assert_eq!(rt.execute(&mut tls, 0, gp), Ok(()));
    assert_eq!(rt.gs[gp].atomicstatus, GRUNNING);
    assert_eq!(tls.g, Some(gp));
}

#[test]
fn notify_one_no_waiters() {
    let mut rt = scheduler(1, false);
    let mut cnd = Cond::new();
    assert_eq!(cnd.notify_one(&mut rt, None), None);
}

#[test]
fn notify_all_no_waiters() {
    let mut rt = scheduler(1, false);
    let mut cnd = Cond::new();
    cnd.notify_all(&mut rt, None);
    assert!(cnd.waitq.is_empty());
}

#[test]
fn new_wait_returns_immediately() {
    let mut rt = scheduler(1, false);
    let mut wg = WaitGroup::new();
    assert_eq!(wg.wait(&mut rt, None, 1), WaitStep::Done);
}

#[test]
fn thread_outside_sleeps_until_the_counter_is_zero() {
    let mut rt = scheduler(1, false);
    let mut wg = WaitGroup::new();
    assert!(!wg.add(&mut rt, None, 2));
    assert_eq!(wg.wait(&mut rt, None, 1), WaitStep::Sleep);
    assert!(!wg.done(&mut rt, None));
    assert_eq!(wg.wait(&mut rt, None, 1), WaitStep::Sleep);
    assert!(wg.done(&mut rt, None));
    assert_eq!(wg.wait(&mut rt, None, 1), WaitStep::Done);
}

fn boxed(text: &str, n: usize) -> Payload {
    let mut p = Payload::Text(text.to_string());
    for _ in 0..n {
        p = Payload::Boxed(Box::new(p));
    }
    p
}

#[test]
fn panic_messages() {
    assert_eq!(extract_panic_msg(&boxed("boom", 0)), "boom");
    assert_eq!(extract_panic_msg(&boxed("boom", 1)), "boom");
    assert_eq!(extract_panic_msg(&boxed("boom", 4)), "boom");
    assert_eq!(extract_panic_msg(&boxed("boom", 5)), "(unknown panic payload)");
    assert_eq!(extract_panic_msg(&Payload::Other), "(unknown panic payload)");
}

#[test]
fn last_handler_is_told_of_panics() {
    let mut slot: PanicHandler<u32> = PanicHandler::new();
    match handle_goroutine_panic(&slot, &boxed("boom", 0)) {
        PanicAction::Print(s) => assert_eq!(s, "goroutine panicked: boom"),
        PanicAction::Call(h) => panic!("{h}"),
    }
    set_panic_handler(&mut slot, 1);
    set_panic_handler(&mut slot, 2);
    assert!(matches!(
        handle_goroutine_panic(&slot, &boxed("boom", 0)),
        PanicAction::Call(2)
    ));
}

#[test]
fn what_a_program_comes_to() {
    assert_eq!(run_result(Some(Ok(5))), Ok(5));
    assert_eq!(
        run_result::<i32>(Some(Err(boxed("boom", 2)))),
        Err("goroutine panicked: boom".to_string())
    );
    assert_eq!(
        run_result::<i32>(None),
        Err("go_lib::run: first goroutine exited without storing a result".to_string())
    );
}
