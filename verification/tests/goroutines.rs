//! Goroutine descriptors, threads, processors and their run queues.

use go_lib::runtime::g::{
    casfrom_gscanstatus, casgstatus, castogscanstatus, is_valid_transition, readgstatus,
    scan_stack, try_casgstatus, Gobuf, Stack, WaitReason, G, GCOPYSTACK, GDEAD, GIDLE, GPREEMPTED,
    GRUNNABLE, GRUNNING, GSCAN, GSYSCALL, GWAITING, STACK_GUARD,
};
use go_lib::runtime::m::{new_g0, Note, Tls, M};
use go_lib::runtime::p::{GlobalRunQueue, P, PIDLE};
use go_lib::runtime::procs::{schedinit, Config};
use go_lib::runtime::stack::G0_STACK_BYTES;

const STACK_BYTES: u64 = 32 * 1024;

fn make_g(id: u64) -> G {
    let lo = (id + 1) << 20;
    G::new(id as usize, Stack { lo, hi: lo + STACK_BYTES }, id)
}

#[test]
fn gscan_round_trip() {
    let mut g = make_g(999);
    g.atomicstatus = GWAITING;
    scan_stack(&mut g, |g: &G| {
        assert_eq!(g.atomicstatus, GSCAN | GWAITING);
    });
    assert_eq!(g.atomicstatus, GWAITING);
}

#[test]
fn scan_status_is_set_and_taken_back() {
    let mut g = make_g(1);
    g.atomicstatus = GRUNNABLE;
    castogscanstatus(&mut g, GRUNNABLE);
    assert_eq!(g.atomicstatus, GSCAN | GRUNNABLE);
    assert_eq!(readgstatus(&g), GRUNNABLE);
    assert!(!try_casgstatus(&mut g, GRUNNABLE, GRUNNING));
    casfrom_gscanstatus(&mut g, GSCAN | GRUNNABLE, GRUNNABLE);
    assert_eq!(g.atomicstatus, GRUNNABLE);
    assert!(try_casgstatus(&mut g, GRUNNABLE, GRUNNING));
    casgstatus(&mut g, GRUNNING, GWAITING);
    assert_eq!(g.atomicstatus, GWAITING);
}

#[test]
fn status_transitions() {
    assert!(is_valid_transition(GIDLE, GRUNNABLE));
    assert!(is_valid_transition(GRUNNABLE, GRUNNING));
    assert!(is_valid_transition(GRUNNING, GDEAD));
    assert!(is_valid_transition(GRUNNING, GSYSCALL));
    assert!(is_valid_transition(GSYSCALL, GRUNNING));
    assert!(is_valid_transition(GSCAN | GWAITING, GRUNNABLE));
    assert!(is_valid_transition(GCOPYSTACK, GRUNNING));
    assert!(is_valid_transition(GPREEMPTED, GRUNNABLE));
    assert!(!is_valid_transition(GIDLE, GRUNNING));
    assert!(!is_valid_transition(GRUNNABLE, GWAITING));
    assert!(!is_valid_transition(GDEAD, GRUNNABLE));
    assert!(!is_valid_transition(GWAITING, GRUNNING));
}

#[test]
fn new_goroutine_descriptor() {
    let g = make_g(7);
    assert_eq!(g.atomicstatus, GIDLE);
    assert_eq!(g.stackguard0, g.stack.lo + STACK_GUARD);
    assert_eq!(g.stackguard0, (8 << 20) + 928);
    assert_eq!(g.sched.g, Some(7));
    assert_eq!(g.sched.sp, 0);
    assert_eq!(g.goid, 7);
    assert_eq!(g.m, None);
    assert_eq!(Gobuf::default().g, None);
}

#[test]
fn wait_reasons_in_words() {
    assert_eq!(WaitReason::default(), WaitReason::Zero);
    assert_eq!(WaitReason::Zero.as_str(), "");
    assert_eq!(WaitReason::Select.as_str(), "select");
    assert_eq!(WaitReason::ChanReceive.as_str(), "chan receive");
    assert_eq!(WaitReason::ChanSend.as_str(), "chan send");
    assert_eq!(WaitReason::Semacquire.as_str(), "semacquire");
    assert_eq!(WaitReason::Sleep.as_str(), "sleep");
    assert_eq!(WaitReason::CondVar.as_str(), "condvar wait");
    assert_eq!(WaitReason::IOWait.as_str(), "IO wait");
    assert_eq!(WaitReason::Select.code(), 9);
    assert_eq!(WaitReason::Sleep.code(), 19);
}

#[test]
fn note_wakeup_before_sleep() {
    let mut note = Note::new();
    note.wakeup();
    assert!(note.sleep());
}

#[test]
fn note_clear_resets_flag() {
    let mut note = Note::new();
    note.wakeup();
    note.clear();
    assert!(!note.sleep());
    note.wakeup();
    assert!(note.sleep());
}

#[test]
fn m_new_wires_g0() {
    let stack = Stack { lo: 0x10_0000, hi: 0x10_0000 + G0_STACK_BYTES };
    let m = M::new(1, 5);
    let g0 = new_g0(5, stack, 3);
    assert_eq!(m.g0, 5);
    assert_eq!(g0.m, Some(3));
    assert!(g0.stack.lo < g0.stack.hi);
    assert_eq!(g0.sched.sp, g0.stack.hi);
    assert_eq!(g0.sched.bp, g0.stack.hi);
    assert_eq!(g0.goid, 0);
    assert_eq!(m.curg, None);
    assert_eq!(m.p, None);
    assert_eq!(m.id, 1);
    assert!(!m.spinning);
    assert!(!m.blocked);
}

#[test]
fn m_drop_frees_stack() {
    let stack = Stack { lo: 0x20_0000, hi: 0x20_0000 + G0_STACK_BYTES };
    let rt = schedinit(
        1,
        &vec![stack],
        Config { gpool_off: false, debug: false, stack_bytes: STACK_BYTES },
    );
    assert_eq!(rt.drop_m(0), stack);
}

#[test]
fn m_locks_are_counted() {
    let mut m = M::new(4, 0);
    assert_eq!(m.locks, 0);
    m.lock();
    m.lock();
    assert_eq!(m.locks, 2);
    m.unlock();
    assert_eq!(m.locks, 1);
}

#[test]
fn m_parks_once_per_wakeup() {
    let mut m = M::new(4, 0);
    assert!(!m.park_m());
    m.unpark();
    assert!(m.park_m());
    assert!(!m.park_m());
}

#[test]
fn thread_local_state_of_a_started_m() {
    let mut m = M::new(9, 6);
    let mut tls = Tls::new();
    assert_eq!(tls.current_m(), None);
    tls.start(2, &mut m, 4711);
    assert_eq!(tls.current_m(), Some(2));
    assert_eq!(tls.g0_sched(), Some(6));
    assert_eq!(m.pthread_id, 4711);
    tls.set_current_g(Some(8));
    assert_eq!(tls.current_g(), Some(8));
    tls.set_current_m(None);
    assert_eq!(tls.current_m(), None);
}

#[test]
fn p_new_initial_state() {
    let p = P::new(1);
    assert_eq!(p.id, 1);
    assert_eq!(p.status, PIDLE);
    assert_eq!(p.m, None);
    assert_eq!(p.runqhead, 0);
    assert_eq!(p.runqtail, 0);
    assert_eq!(p.runnext, None);
}

#[test]
fn global_queue_push_pop() {
    let mut gq = GlobalRunQueue::new();
    gq.push_batch(&[1, 2]);
    assert_eq!(gq.len(), 2);
    assert_eq!(gq.pop(), Some(1));
    assert_eq!(gq.len(), 1);
    assert_eq!(gq.pop(), Some(2));
    assert_eq!(gq.len(), 0);
}

#[test]
fn global_queue_pop_empty() {
    let mut gq = GlobalRunQueue::new();
    assert_eq!(gq.pop(), None);
    assert_eq!(gq.len(), 0);
}

#[test]
fn runqput_runqget_fifo() {
    let mut p = P::new(0);
    let mut gq = GlobalRunQueue::new();
    for g in 0..10 {
        p.runqput(g, false, &mut gq);
    }
    for g in 0..10 {
        let (got, inherit) = p.runqget();
        assert_eq!(got, Some(g), "mismatch at position {g}");
        assert!(!inherit);
    }
    let (got, _) = p.runqget();
    assert_eq!(got, None);
}

#[test]
fn runqput_next_installs_runnext() {
    let mut p = P::new(0);
    let mut gq = GlobalRunQueue::new();
    p.runqput(1, true, &mut gq);
    assert_eq!(p.runqget(), (Some(1), true));
}

#[test]
fn runqput_next_displaces_old_runnext() {
    let mut p = P::new(0);
    let mut gq = GlobalRunQueue::new();
    p.runqput(1, true, &mut gq);
    p.runqput(2, true, &mut gq);
    assert_eq!(p.runqget(), (Some(2), true));
    assert_eq!(p.runqget(), (Some(1), false));
}

#[test]
fn runqput_overflow_to_global() {
    let mut p = P::new(0);
    let mut gq = GlobalRunQueue::new();
    for g in 0..256 {
        p.runqput(g, false, &mut gq);
    }
    assert_eq!(gq.len(), 0);
    p.runqput(257, false, &mut gq);
    assert!(gq.len() > 0, "expected overflow to global queue");
    assert_eq!(gq.len(), 129);
    assert_eq!(p.runq_size(), 128);
    for g in 0..128 {
        assert_eq!(gq.pop(), Some(g));
    }
    assert_eq!(gq.pop(), Some(257));
    assert_eq!(p.runqget(), (Some(128), false));
}

#[test]
fn runq_size_counts_runnext() {
    let mut p = P::new(0);
    let mut gq = GlobalRunQueue::new();
    assert_eq!(p.runq_size(), 0);
    p.runqput(1, true, &mut gq);
    assert_eq!(p.runq_size(), 1);
}

#[test]
fn runqsteal_basic() {
    let mut victim = P::new(0);
    let mut stealer = P::new(1);
    let mut gq = GlobalRunQueue::new();
    for g in 0..10 {
        victim.runqput(g, false, &mut gq);
    }
    let stolen = stealer.runqsteal(&mut victim, false);
    assert!(stolen.is_some(), "should have stolen something");
    let (got, _) = stealer.runqget();
    assert!(got.is_some(), "stealer should have something to run");
    assert_eq!(stolen, Some(4));
    assert_eq!(got, Some(0));
    assert_eq!(victim.runq_size(), 5);
    assert_eq!(stealer.runq_size(), 3);
}

#[test]
fn runnext_is_stolen_only_when_asked() {
    let mut victim = P::new(0);
    let mut stealer = P::new(1);
    let mut gq = GlobalRunQueue::new();
    victim.runqput(3, true, &mut gq);
    assert_eq!(stealer.runqsteal(&mut victim, false), None);
    assert_eq!(stealer.runqsteal(&mut victim, true), Some(3));
    assert_eq!(victim.runq_size(), 0);
}

#[test]
fn concurrent_push_pop() {
    // A pop before the push, and one after it, give the goroutine once.
    let mut gq = GlobalRunQueue::new();
    let before = gq.pop();
    gq.push_batch(&[1]);
    let after = gq.pop();
    assert_eq!([before, after].iter().filter(|p| p.is_some()).count(), 1);
    // So do two pops after it.
    gq.push_batch(&[1]);
    let first = gq.pop();
    let second = gq.pop();
    assert_eq!([first, second].iter().filter(|p| p.is_some()).count(), 1);
}

#[test]
fn concurrent_two_pops() {
    let mut gq = GlobalRunQueue::new();
    gq.push_batch(&[1, 2]);
    let mut got: Vec<usize> = [gq.pop(), gq.pop(), gq.pop()].into_iter().flatten().collect();
    assert_eq!(got.len(), 2);
    got.sort();
    got.dedup();
    assert_eq!(got.len(), 2);
}
