//! Waiting goroutines, the channels they wait on, and the network poller.

use go_lib::chan::Chans;
use go_lib::runtime::g::{Stack, G, GWAITING};
use go_lib::runtime::netpoll::{
    iocp_collect, iocp_timeout, poll_events, poll_timespec, IocpEntry, IocpOp, Netpoll, PollBits,
    PollChange, POLL_READ, POLL_WRITE,
};
use go_lib::runtime::sudog::{Elem, Sudog, SudogPool, WaitQ, BATCH, CENTRAL_CAP, LOCAL_CAP};
use go_lib::select::{
    lock_order, poll_order, recv_case_of, send_case_of, Lehmer, SCase, TryResult,
};

fn make_g(id: usize) -> G {
    let mut g = G::new(id, Stack { lo: 0x100000, hi: 0x110000 }, 1);
    g.atomicstatus = GWAITING;
    g
}

fn is_null(e: &Elem<i32>) -> bool {
    matches!(e, Elem::Null)
}

#[test]
fn acquire_returns_zeroed_sudog() {
    let mut pool: SudogPool<i32> = SudogPool::new(1);
    let s = pool.acquire_sudog(Some(0));
    let x: &Sudog<i32> = &pool.slots[s];
    assert_eq!(x.g, None, "g must be null");
    assert_eq!(x.next, None, "next must be null");
    assert_eq!(x.prev, None, "prev must be null");
    assert!(is_null(&x.elem), "elem must be null");
    assert!(!x.is_select, "is_select must be false");
    assert!(!x.success, "success must be false");
    assert_eq!(x.c, None, "c must be null");
    pool.release_sudog(Some(0), s);
}

#[test]
fn released_sudog_is_reused() {
    let mut pool: SudogPool<i32> = SudogPool::new(1);
    for p in [Some(0), None] {
        let s1 = pool.acquire_sudog(p);
        pool.slots[s1].success = true;
        pool.release_sudog(p, s1);
        let s2 = pool.acquire_sudog(p);
        assert_eq!(s1, s2, "acquire should reuse the just-released sudog");
        assert_eq!(pool.slots[s2].g, None);
        assert!(is_null(&pool.slots[s2].elem));
        assert_eq!(pool.slots[s2].c, None);
        assert!(!pool.slots[s2].success);
    }
}

#[test]
fn full_local_list_sends_half_away() {
    let mut pool: SudogPool<i32> = SudogPool::new(1);
    let all: Vec<usize> = (0..LOCAL_CAP + 1).map(|_| pool.acquire_sudog(None)).collect();
    for s in &all {
        pool.release_sudog(Some(0), *s);
    }
    assert_eq!(pool.locals[0].len(), LOCAL_CAP - BATCH + 1);
    assert_eq!(pool.central.len(), BATCH);
    // An empty list takes a batch back.
    for _ in 0..LOCAL_CAP - BATCH + 1 {
        pool.acquire_sudog(Some(0));
    }
    assert_eq!(pool.locals[0].len(), 0);
    pool.acquire_sudog(Some(0));
    assert_eq!(pool.locals[0].len(), BATCH - 1);
    assert_eq!(pool.central.len(), 0);
}

#[test]
fn central_list_has_a_limit() {
    let mut pool: SudogPool<i32> = SudogPool::new(1);
    let all: Vec<usize> = (0..CENTRAL_CAP + 3).map(|_| pool.acquire_sudog(None)).collect();
    for s in &all {
        pool.release_sudog(None, *s);
    }
    assert_eq!(pool.central.len(), CENTRAL_CAP);
    assert_eq!(pool.vacant.len(), 3);
}

#[test]
fn waitq_enqueue_into_empty() {
    let mut pool: SudogPool<i32> = SudogPool::new(1);
    let s = pool.acquire_sudog(None);
    pool.slots[s].g = Some(0);
    let mut q = WaitQ::new(0);
    assert!(q.is_empty(&pool.slots));
    q.enqueue(&mut pool.slots, s);
    assert!(!q.is_empty(&pool.slots));
    assert_eq!(q.first, Some(s));
    assert_eq!(q.last, Some(s));
    assert_eq!(pool.slots[s].prev, None, "first element has no prev");
    assert_eq!(pool.slots[s].next, None, "only element has no next");
}

#[test]
fn waitq_fifo_order() {
    let mut pool: SudogPool<i32> = SudogPool::new(1);
    let mut gs = vec![make_g(0), make_g(1)];
    let s1 = pool.acquire_sudog(None);
    let s2 = pool.acquire_sudog(None);
    pool.slots[s1].g = Some(0);
    pool.slots[s2].g = Some(1);
    let mut q = WaitQ::new(0);
    q.enqueue(&mut pool.slots, s1);
    q.enqueue(&mut pool.slots, s2);
    assert_eq!(q.dequeue(&mut pool.slots, &mut gs), Some(s1), "first dequeue must return s1");
    assert_eq!(q.dequeue(&mut pool.slots, &mut gs), Some(s2), "second dequeue must return s2");
    assert!(q.is_empty(&pool.slots), "queue must be empty after both dequeues");
    assert_eq!(q.dequeue(&mut pool.slots, &mut gs), None);
    for s in [s1, s2] {
        assert_eq!(pool.slots[s].next, None);
        assert_eq!(pool.slots[s].prev, None);
    }
}

#[test]
fn waitq_dequeue_skips_non_waiting() {
    let mut pool: SudogPool<i32> = SudogPool::new(1);
    let mut gs = vec![make_g(0), make_g(1)];
    let s_skip = pool.acquire_sudog(None);
    let s_take = pool.acquire_sudog(None);
    pool.slots[s_skip].g = Some(0);
    pool.slots[s_skip].is_select = true;
    pool.slots[s_take].g = Some(1);
    pool.slots[s_take].is_select = true;
    gs[0].selectdone = 1;
    let mut q = WaitQ::new(0);
    q.enqueue(&mut pool.slots, s_skip);
    q.enqueue(&mut pool.slots, s_take);
    let got = q.dequeue(&mut pool.slots, &mut gs);
    assert_eq!(got, Some(s_take), "dequeue must skip the select-lost sudog");
    assert!(q.is_empty(&pool.slots));
    assert_eq!(gs[1].selectdone, 1);
}

#[test]
fn waitq_dequeue_sudog_middle() {
    let mut pool: SudogPool<i32> = SudogPool::new(1);
    let mut gs = vec![make_g(0), make_g(1), make_g(2)];
    let s: Vec<usize> = (0..3).map(|_| pool.acquire_sudog(None)).collect();
    let mut q = WaitQ::new(0);
    for i in 0..3 {
        pool.slots[s[i]].g = Some(i);
        q.enqueue(&mut pool.slots, s[i]);
    }
    assert!(q.dequeue_sudog(&mut pool.slots, s[1]));
    assert_eq!(q.first, Some(s[0]));
    assert_eq!(q.last, Some(s[2]));
    assert_eq!(pool.slots[s[0]].next, Some(s[2]));
    assert_eq!(pool.slots[s[2]].prev, Some(s[0]));
    assert_eq!(pool.slots[s[1]].next, None);
    assert_eq!(pool.slots[s[1]].prev, None);
    assert!(!q.dequeue_sudog(&mut pool.slots, s[1]));
    assert_eq!(q.dequeue(&mut pool.slots, &mut gs), Some(s[0]));
    assert_eq!(q.dequeue(&mut pool.slots, &mut gs), Some(s[2]));
    assert!(q.is_empty(&pool.slots));
}

#[test]
fn closed_channel_refuses_to_send() {
    let mut s: Chans<i32> = Chans::new(1);
    let mut gs = vec![make_g(0)];
    let (tx, rx) = s.chan(2);
    let mut v = Some(1);
    assert_eq!(s.try_send(&mut gs, tx.chan, &mut v), TryResult::Done { ok: true });
    assert_eq!(v, None);
    assert!(s.close(&mut gs, tx.chan).is_empty());
    let mut w = Some(2);
    assert_eq!(s.try_send(&mut gs, tx.chan, &mut w), TryResult::ClosedSend);
    assert_eq!(w, Some(2));
    let mut got = None;
    assert_eq!(s.try_recv(&mut gs, rx.chan, &mut got), TryResult::Done { ok: true });
    assert_eq!(got, Some(1));
    let mut none = None;
    assert_eq!(s.try_recv(&mut gs, rx.chan, &mut none), TryResult::Done { ok: false });
    assert_eq!(none, None);
    assert!(s.close(&mut gs, tx.chan).is_empty());
}

#[test]
fn full_buffer_and_empty_buffer_are_not_ready() {
    let mut s: Chans<i32> = Chans::new(1);
    let mut gs = vec![make_g(0)];
    let (tx, rx) = s.chan(1);
    let mut none = None;
    assert_eq!(s.try_recv(&mut gs, rx.chan, &mut none), TryResult::NotReady);
    assert_eq!(s.try_send(&mut gs, tx.chan, &mut Some(1)), TryResult::Done { ok: true });
    let mut v = Some(2);
    assert_eq!(s.try_send(&mut gs, tx.chan, &mut v), TryResult::NotReady);
    assert_eq!(v, Some(2));
}

#[test]
fn waiting_sender_refills_the_buffer() {
    let mut s: Chans<i32> = Chans::new(1);
    let mut gs = vec![make_g(0), make_g(1)];
    let (tx, rx) = s.chan(1);
    assert_eq!(s.try_send(&mut gs, tx.chan, &mut Some(1)), TryResult::Done { ok: true });
    let sg = s.enqueue_waiter(tx.chan, true, Some(0), 1, Some(2));
    let mut got = None;
    assert_eq!(
        s.try_recv(&mut gs, rx.chan, &mut got),
        TryResult::Handoff { gp: 1, ok: true }
    );
    assert_eq!(got, Some(1));
    assert_eq!(gs[1].param, Some(sg));
    assert_eq!(gs[1].selectdone, 1);
    assert!(s.pool.slots[sg].success);
    let mut next = None;
    assert_eq!(s.try_recv(&mut gs, rx.chan, &mut next), TryResult::Done { ok: true });
    assert_eq!(next, Some(2));
}

#[test]
fn values_come_out_as_they_went_in() {
    let mut s: Chans<i32> = Chans::new(1);
    let mut gs = vec![make_g(0), make_g(1), make_g(2), make_g(3)];
    let (tx, rx) = s.chan(2);
    for v in [1, 2] {
        assert_eq!(s.try_send(&mut gs, tx.chan, &mut Some(v)), TryResult::Done { ok: true });
    }
    // Three wait; the second of them goes elsewhere.
    s.enqueue_waiter(tx.chan, true, Some(0), 1, Some(3));
    s.enqueue_waiter(tx.chan, true, None, 2, Some(99));
    s.enqueue_waiter(tx.chan, true, Some(0), 3, Some(4));
    gs[2].selectdone = 1;
    let mut got = Vec::new();
    loop {
        let mut slot = None;
        if s.try_recv(&mut gs, rx.chan, &mut slot) == TryResult::NotReady {
            break;
        }
        got.extend(slot);
    }
    assert_eq!(got, vec![1, 2, 3, 4]);
}

#[test]
fn closing_wakes_whoever_waits() {
    let mut s: Chans<i32> = Chans::new(1);
    let mut gs = vec![make_g(0), make_g(1), make_g(2)];
    let (tx, _) = s.chan(0);
    let a = s.enqueue_waiter(tx.chan, false, None, 1, None);
    let b = s.enqueue_waiter(tx.chan, false, None, 2, None);
    gs[2].selectdone = 1;
    assert_eq!(s.close(&mut gs, tx.chan), vec![1]);
    assert_eq!(gs[1].param, Some(a));
    assert_eq!(gs[2].param, None);
    assert!(!s.pool.slots[a].success);
    assert_eq!(s.pool.slots[b].q, None);
}

#[test]
fn one_goroutine_is_claimed_once() {
    // It waits on two channels; both get a value, one of them hands it over.
    let mut s: Chans<i32> = Chans::new(1);
    let mut gs = vec![make_g(0)];
    let (tx1, _) = s.chan(1);
    let (tx2, _) = s.chan(1);
    s.enqueue_waiter(tx1.chan, false, None, 0, None);
    s.enqueue_waiter(tx2.chan, false, None, 0, None);
    assert_eq!(
        s.try_send(&mut gs, tx2.chan, &mut Some(5)),
        TryResult::Handoff { gp: 0, ok: true }
    );
    assert_eq!(s.try_send(&mut gs, tx1.chan, &mut Some(6)), TryResult::Done { ok: true });
}

#[test]
fn poll_orders() {
    assert_eq!(poll_order(0, Some(3)), Vec::<usize>::new());
    assert_eq!(poll_order(1, None), vec![0]);
    for goid in 0..50 {
        let mut order = poll_order(7, Some(goid));
        order.sort();
        assert_eq!(order, vec![0, 1, 2, 3, 4, 5, 6]);
    }
    // The generator's first numbers from the seed 1.
    let mut rng = Lehmer::from_goid(None);
    assert_eq!(rng.0, 1);
    let first = rng.next_usize(usize::MAX);
    assert_eq!(rng.0, 6_364_136_223_846_793_006);
    assert_eq!(first, 740_882_966);
    assert_eq!(Lehmer::from_goid(Some(6)).0, 7);
    let orders: Vec<Vec<usize>> = (0..40).map(|g| poll_order(3, Some(2 * g))).collect();
    assert!(orders.iter().any(|o| *o != orders[0]), "the order must vary");
}

#[test]
fn locks_are_taken_in_order() {
    let mut s: Chans<i32> = Chans::new(1);
    let (tx0, rx0) = s.chan(0);
    let (_, rx1) = s.chan(0);
    let (tx2, _) = s.chan(0);
    let cases: Vec<SCase<i32>> = vec![
        send_case_of(&tx2, 1),
        recv_case_of(&rx0, None),
        recv_case_of(&rx1, None),
        send_case_of(&tx0, 1),
    ];
    assert_eq!(lock_order(&cases), vec![1, 2, 0]);
    assert_eq!(lock_order::<i32>(&vec![]), Vec::<usize>::new());
}

#[test]
fn registration_is_good_for_one_report() {
    let mut np = Netpoll::new();
    assert_eq!(np.netpoll_arm(5, POLL_READ, 1), PollChange::Keep);
    assert_eq!(np.netpoll_wait(&vec![5]), (vec![], vec![]));
    assert_eq!(np.netpoll_init(3), None);
    assert_eq!(np.netpoll_init(4), Some(4));
    assert_eq!(
        np.netpoll_arm(5, POLL_READ, 1),
        PollChange::Watch { pfd: 3, fd: 5, mode: POLL_READ }
    );
    np.netpoll_arm(6, POLL_WRITE, 2);
    np.netpoll_arm(7, POLL_WRITE, 3);
    assert_eq!(np.netpoll_wait(&vec![7, 9, 5, 7]), (vec![3, 1], vec![7, 5]));
    assert_eq!(np.netpoll_wait(&vec![7, 5]), (vec![], vec![]));
    assert_eq!(np.netpoll_unarm(6), PollChange::Forget { pfd: 3, fd: 6 });
    assert_eq!(np.netpoll_wait(&vec![6]), (vec![], vec![]));
    np.netpoll_arm(8, POLL_READ, 4);
    np.netpoll_arm(9, POLL_READ, 5);
    let mut gone = np.netpoll_clear_reg();
    gone.sort();
    assert_eq!(gone, vec![8, 9]);
    assert!(np.reg.is_empty());
}

#[test]
fn poller_arguments() {
    let bits = PollBits { oneshot: 0x4000_0000, input: 1, output: 4 };
    assert_eq!(poll_events(0, bits), 0x4000_0000);
    assert_eq!(poll_events(POLL_READ, bits), 0x4000_0001);
    assert_eq!(poll_events(POLL_WRITE, bits), 0x4000_0004);
    assert_eq!(poll_events(POLL_READ | POLL_WRITE, bits), 0x4000_0005);
    assert_eq!(poll_timespec(-1), None);
    assert_eq!(poll_timespec(0), Some((0, 0)));
    assert_eq!(poll_timespec(2_345), Some((2, 345_000_000)));
    assert_eq!(iocp_timeout(-1), u32::MAX);
    assert_eq!(iocp_timeout(12), 12);
}

#[test]
fn completions_are_noted() {
    let mut ops = vec![
        IocpOp { gp: 10, bytes_transferred: 0, ntstatus: 0 },
        IocpOp { gp: 11, bytes_transferred: 0, ntstatus: 0 },
    ];
    let entries = vec![
        IocpEntry { op: Some(1), bytes_transferred: 100, internal: 0x1_0000_0007 },
        IocpEntry { op: None, bytes_transferred: 1, internal: 1 },
        IocpEntry { op: Some(0), bytes_transferred: 20, internal: 0 },
    ];
    assert_eq!(iocp_collect(&mut ops, &entries), vec![11, 10]);
    assert_eq!(ops[1], IocpOp { gp: 11, bytes_transferred: 100, ntstatus: 7 });
    assert_eq!(ops[0], IocpOp { gp: 10, bytes_transferred: 20, ntstatus: 0 });
}
