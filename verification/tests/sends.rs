//! What becomes of the values that goroutines want to send.

use go_lib::chan::Chans;
use go_lib::runtime::g::Stack;
use go_lib::runtime::procs::{schedinit, Config};
use go_lib::runtime::run::{Arch, Entry};
use go_lib::runtime::sched::Rt;
use go_lib::select::{
    recv_case_of, selectgo, selectgo_finish, send_case_of, Lehmer, SCase, SelectStep, TryResult,
    CASE_DEFAULT,
};

const STACK_BYTES: u64 = 32 * 1024;

fn scheduler(goroutines: u64) -> (Rt, Vec<usize>) {
    let config = Config { gpool_off: false, debug: true, stack_bytes: STACK_BYTES };
    let mut rt = schedinit(1, &vec![Stack { lo: 1 << 20, hi: (1 << 20) + 65536 }], config);
    let entry = Entry { entry_pc: 0x1000, exit_pc: 0x2000, arch: Arch::X86_64 };
    let gs = (0..goroutines)
        .map(|i| {
            let lo = (i + 2) << 20;
            rt.spawn_goroutine(1, entry, Some(Stack { lo, hi: lo + STACK_BYTES })).0
        })
        .collect();
    (rt, gs)
}

fn values(cases: &[SCase<u32>]) -> Vec<Option<u32>> {
    cases.iter().map(|c| c.elem).collect()
}

#[test]
fn only_the_case_that_won_has_lost_its_value() {
    let (mut rt, g) = scheduler(1);
    let mut s: Chans<u32> = Chans::new(1);
    let (tx1, _) = s.chan(0);
    let (tx2, rx2) = s.chan(0);
    let (_, rx3) = s.chan(0);
    let mut cases = vec![
        send_case_of(&tx1, 10),
        send_case_of(&tx2, 20),
        send_case_of(&tx2, 21),
        recv_case_of(&rx3, None),
    ];
    let step = selectgo(&mut s, &mut rt, Some(0), Some(g[0]), &mut cases, false);
    assert_eq!(step, SelectStep::Park);
    assert_eq!(values(&cases), vec![None, None, None, None]);

    let mut got = None;
    let done = s.try_recv(&mut rt.gs, rx2.chan, &mut got);
    assert_eq!(done, TryResult::Handoff { gp: g[0], ok: true });
    assert_eq!(got, Some(20));
    let mut none = None;
    assert_eq!(s.try_recv(&mut rt.gs, rx2.chan, &mut none), TryResult::NotReady);

    let (index, ok) = selectgo_finish(&mut s, &mut rt, Some(0), g[0], &mut cases);
    assert_eq!((index, ok), (1, true));
    assert_eq!(values(&cases), vec![Some(10), None, Some(21), None]);
}

#[test]
fn value_of_a_waiting_sender_goes_to_the_end_of_the_buffer() {
    let (mut rt, g) = scheduler(1);
    let mut s: Chans<u32> = Chans::new(1);
    let (tx, rx) = s.chan(2);
    for v in [1, 2] {
        let done = s.try_send(&mut rt.gs, tx.chan, &mut Some(v));
        assert_eq!(done, TryResult::Done { ok: true });
    }
    let mut cases = vec![send_case_of(&tx, 3)];
    let step = selectgo(&mut s, &mut rt, Some(0), Some(g[0]), &mut cases, false);
    assert_eq!(step, SelectStep::Park);
    let mut got = None;
    let done = s.try_recv(&mut rt.gs, rx.chan, &mut got);
    assert_eq!(done, TryResult::Handoff { gp: g[0], ok: true });
    assert_eq!(got, Some(1));
    assert_eq!(s.chans[rx.chan].buf, vec![2, 3]);
    let (index, ok) = selectgo_finish(&mut s, &mut rt, Some(0), g[0], &mut cases);
    assert_eq!((index, ok), (0, true));
    assert_eq!(values(&cases), vec![None]);
}

#[test]
fn closing_gives_the_value_back() {
    let (mut rt, g) = scheduler(1);
    let mut s: Chans<u32> = Chans::new(1);
    let (tx, _) = s.chan(0);
    let mut cases = vec![send_case_of(&tx, 7)];
    let step = selectgo(&mut s, &mut rt, Some(0), Some(g[0]), &mut cases, false);
    assert_eq!(step, SelectStep::Park);
    assert_eq!(s.close(&mut rt.gs, tx.chan), vec![g[0]]);
    let (index, ok) = selectgo_finish(&mut s, &mut rt, Some(0), g[0], &mut cases);
    assert_eq!((index, ok), (0, false));
    assert_eq!(values(&cases), vec![Some(7)]);
}

#[test]
fn values_that_are_not_sent_stay() {
    let (mut rt, g) = scheduler(1);
    let mut s: Chans<u32> = Chans::new(1);
    let (full, _) = s.chan(0);
    let (room, rx) = s.chan(1);
    let mut cases = vec![send_case_of(&full, 1)];
    let step = selectgo(&mut s, &mut rt, Some(0), Some(g[0]), &mut cases, true);
    assert_eq!(step, SelectStep::Chosen { index: CASE_DEFAULT, ok: false, retry: None });
    assert_eq!(values(&cases), vec![Some(1)]);

    cases.push(send_case_of(&room, 2));
    let step = selectgo(&mut s, &mut rt, Some(0), Some(g[0]), &mut cases, false);
    assert_eq!(step, SelectStep::Chosen { index: 1, ok: true, retry: None });
    assert_eq!(values(&cases), vec![Some(1), None]);
    assert_eq!(s.chans[rx.chan].buf, vec![2]);

    s.close(&mut rt.gs, full.chan);
    cases.pop();
    let step = selectgo(&mut s, &mut rt, Some(0), Some(g[0]), &mut cases, false);
    assert_eq!(step, SelectStep::ClosedSend);
    assert_eq!(values(&cases), vec![Some(1)]);
}

/// Checks what a `select` has left of its values, and notes those that went out
/// and the one that came in.
fn settle(
    before: &[SCase<u32>],
    after: &[SCase<u32>],
    index: usize,
    ok: bool,
    out: &mut Vec<u32>,
    came: &mut Vec<u32>,
) {
    for (i, (b, a)) in before.iter().zip(after).enumerate() {
        if b.send {
            let gone = i == index && ok;
            assert_eq!(a.elem, if gone { None } else { b.elem });
            if gone {
                out.extend(b.elem);
            }
        } else if i == index && ok {
            came.extend(a.elem);
        } else {
            assert_eq!(a.elem, None);
        }
    }
}

fn copies(cases: &[SCase<u32>]) -> Vec<SCase<u32>> {
    cases.iter().map(|c| SCase { chan: c.chan, sg: c.sg, elem: c.elem, send: c.send }).collect()
}

#[test]
fn every_value_is_in_one_place() {
    for seed in 1..200 {
        let mut rng = Lehmer(seed);
        let (mut rt, g) = scheduler(6);
        let mut s: Chans<u32> = Chans::new(1);
        let ends: Vec<_> = [0, 1, 2, 0].iter().map(|cap| s.chan(*cap)).collect();
        let mut waiting: Vec<Option<(Vec<SCase<u32>>, Vec<SCase<u32>>)>> =
            g.iter().map(|_| None).collect();
        let (mut out, mut came, mut next) = (Vec::new(), Vec::new(), 0);
        for _ in 0..300 {
            let k = rng.next_usize(g.len());
            if let Some((before, mut cases)) = waiting[k].take() {
                if rt.gs[g[k]].param.is_none() {
                    waiting[k] = Some((before, cases));
                    continue;
                }
                let (index, ok) = selectgo_finish(&mut s, &mut rt, Some(0), g[k], &mut cases);
                settle(&before, &cases, index, ok, &mut out, &mut came);
                continue;
            }
            if rng.next_usize(60) == 0 {
                let (tx, _) = ends[rng.next_usize(ends.len())];
                s.close(&mut rt.gs, tx.chan);
                continue;
            }
            let mut cases: Vec<SCase<u32>> = Vec::new();
            for _ in 0..1 + rng.next_usize(3) {
                let (tx, rx) = ends[rng.next_usize(ends.len())];
                if rng.next_usize(2) == 0 {
                    next += 1;
                    cases.push(send_case_of(&tx, next));
                } else {
                    cases.push(recv_case_of(&rx, None));
                }
            }
            let before = copies(&cases);
            let has_default = rng.next_usize(4) == 0;
            match selectgo(&mut s, &mut rt, Some(0), Some(g[k]), &mut cases, has_default) {
                SelectStep::Chosen { index, ok, .. } => {
                    settle(&before, &cases, index, ok, &mut out, &mut came);
                }
                SelectStep::ClosedSend => assert_eq!(values(&cases), values(&before)),
                SelectStep::Park => waiting[k] = Some((before, cases)),
            }
        }
        for (k, w) in waiting.into_iter().enumerate() {
            if let Some((before, mut cases)) = w {
                if rt.gs[g[k]].param.is_some() {
                    let (index, ok) = selectgo_finish(&mut s, &mut rt, Some(0), g[k], &mut cases);
                    settle(&before, &cases, index, ok, &mut out, &mut came);
                }
            }
        }
        came.extend(s.chans.iter().flat_map(|c| c.buf.iter().copied()));
        out.sort();
        came.sort();
        assert_eq!(out, came, "what went out is what came in, each once");
    }
}
