//! Machine threads, the event they sleep on, and what a thread knows of itself.

use vstd::prelude::*;

use super::g::{Stack, G};

verus! {

/// Bytes of the stack on which a thread handles signals.
pub const ALT_STACK_SIZE: u64 = 65536;

/// A one-shot event: a wake-up is remembered until one sleeper has taken it.
#[derive(Copy, Clone, Debug, PartialEq, Eq, Structural)]
pub struct Note {
    pub flag: bool,
}

impl Note {
    /// The event that has not happened.
    pub fn new() -> (n: Note)
        ensures
            n.flag == false,
    {
        Note { flag: false }
    }

    /// Takes the event, if it has happened.  Where it has not, the thread
    /// blocks, and asks again when it is woken.
    pub fn sleep(&mut self) -> (awake: bool)
        ensures
            awake == old(self).flag,
            final(self).flag == false,
    {
        let awake: bool = self.flag;
        self.flag = false;
        awake
    }

    /// Makes the event happen.
    pub fn wakeup(&mut self)
        ensures
            final(self).flag == true,
    {
        self.flag = true;
    }

    /// Makes the event not have happened.
    pub fn clear(&mut self)
        ensures
            final(self).flag == false,
    {
        self.flag = false;
    }
}

/// An operating system thread that runs goroutines.
#[derive(Copy, Clone, Debug, PartialEq, Eq)]
pub struct M {
    /// The goroutine on whose stack the scheduler runs.
    pub g0: usize,
    /// The goroutine that runs on this thread; none in the scheduler.
    pub curg: Option<usize>,
    /// The processor it holds; none while it is idle or in a system call.
    pub p: Option<usize>,
    /// The processor it held when it entered a system call.
    pub oldp: Option<usize>,
    /// Unique number.
    pub id: i64,
    /// It is looking for work.
    pub spinning: bool,
    /// It is asleep.
    pub blocked: bool,
    /// The event it sleeps on.
    pub park: Note,
    /// Identity of the thread for signals.
    pub pthread_id: u64,
    /// While positive, the thread must not be preempted.
    pub locks: i32,
}

impl M {
    /// A thread record as it is right after construction.
    pub open spec fn fresh(id: i64, g0: usize) -> M {
        M {
            g0,
            curg: None,
            p: None,
            oldp: None,
            id,
            spinning: false,
            blocked: false,
            park: Note { flag: false },
            pthread_id: 0,
            locks: 0,
        }
    }

    /// Makes the record of a thread whose scheduler runs as goroutine `g0`.
    pub fn new(id: i64, g0: usize) -> (m: M)
        ensures
            m == M::fresh(id, g0),
    {
        M {
            g0,
            curg: None,
            p: None,
            oldp: None,
            id,
            spinning: false,
            blocked: false,
            park: Note::new(),
            pthread_id: 0,
            locks: 0,
        }
    }

    /// Goes to sleep.  Gives back whether the thread may go on at once, because
    /// it was woken before; otherwise it is marked as blocked.
    pub fn park_m(&mut self) -> (awake: bool)
        ensures
            awake == old(self).park.flag,
            *final(self) == (M { blocked: !awake, park: Note { flag: false }, ..*old(self) }),
    {
        self.blocked = true;
        let awake: bool = self.park.sleep();
        if awake {
            self.blocked = false;
        }
        awake
    }

    /// Wakes the thread, now or when it next goes to sleep.
    pub fn unpark(&mut self)
        ensures
            *final(self) == (M { park: Note { flag: true }, ..*old(self) }),
    {
        self.park.wakeup();
    }

    /// Forbids preemption until the matching `unlock`.
    pub fn lock(&mut self)
        requires
            old(self).locks < i32::MAX,
        ensures
            *final(self) == (M { locks: (old(self).locks + 1) as i32, ..*old(self) }),
    {
        self.locks = self.locks + 1;
    }

    /// Takes one `lock` back.
    pub fn unlock(&mut self)
        requires
            old(self).locks > i32::MIN,
        ensures
            *final(self) == (M { locks: (old(self).locks - 1) as i32, ..*old(self) }),
    {
        self.locks = self.locks - 1;
    }
}

/// The goroutine on which a thread's scheduler runs: number 0, its context at
/// the very top of its stack, tied to its thread.
pub open spec fn g0_of(id: usize, stack: Stack, m: usize) -> G {
    let g = G::fresh(id, stack, 0);
    G {
        m: Some(m),
        sched: super::g::Gobuf { sp: stack.hi, bp: stack.hi, ..g.sched },
        ..g
    }
}

/// Makes the goroutine `id` on which the scheduler of thread `m` will run.
pub fn new_g0(id: usize, stack: Stack, m: usize) -> (g: G)
    requires
        stack.lo + super::g::STACK_GUARD <= u64::MAX,
    ensures
        g == g0_of(id, stack, m),
{
    let mut g: G = G::new(id, stack, 0);
    g.sched.sp = stack.hi;
    g.sched.bp = stack.hi;
    g.m = Some(m);
    g
}

/// What a thread knows of itself.
#[derive(Copy, Clone, Debug, PartialEq, Eq)]
pub struct Tls {
    /// Its record; none for threads that run no goroutines.
    pub m: Option<usize>,
    /// The goroutine on whose stack it runs; none on the scheduler's.
    pub g: Option<usize>,
    /// The goroutine that holds the scheduler's context.
    pub g0: Option<usize>,
}

impl Tls {
    /// A thread outside of the scheduler.
    pub fn new() -> (t: Tls)
        ensures
            t == (Tls { m: None, g: None, g0: None }),
    {
        Tls { m: None, g: None, g0: None }
    }

    /// The goroutine that runs.
    pub fn current_g(&self) -> (g: Option<usize>)
        ensures
            g == self.g,
    {
        self.g
    }

    /// Sets the goroutine that runs.
    pub fn set_current_g(&mut self, g: Option<usize>)
        ensures
            *final(self) == (Tls { g, ..*old(self) }),
    {
        self.g = g;
    }

    /// The record of the thread.
    pub fn current_m(&self) -> (m: Option<usize>)
        ensures
            m == self.m,
    {
        self.m
    }

    /// Sets the record of the thread.
    pub fn set_current_m(&mut self, m: Option<usize>)
        ensures
            *final(self) == (Tls { m, ..*old(self) }),
    {
        self.m = m;
    }

    /// The goroutine whose context is the scheduler's.
    pub fn g0_sched(&self) -> (g0: Option<usize>)
        ensures
            g0 == self.g0,
    {
        self.g0
    }

    /// Sets up a new thread as `m`, in its scheduler, and notes its identity.
    pub fn start(&mut self, id: usize, m: &mut M, pthread_id: u64)
        ensures
            *final(self) == (Tls { m: Some(id), g: None, g0: Some(old(m).g0) }),
            *final(m) == (M { pthread_id, ..*old(m) }),
    {
        self.set_current_m(Some(id));
        self.g0 = Some(m.g0);
        self.set_current_g(None);
        m.pthread_id = pthread_id;
    }
}

/// A new thread runs nothing, holds no processor, is not asked to wake and may be
/// preempted.
pub proof fn a_new_thread_is_free(id: i64, g0: usize)
    ensures
        ({
            let m = M::fresh(id, g0);
            &&& m.id == id && m.g0 == g0
            &&& m.curg is None && m.p is None && m.oldp is None
            &&& !m.spinning && !m.blocked && !m.park.flag
            &&& m.locks == 0 && m.pthread_id == 0
        }),
{
}

/// A thread's scheduler runs at the very top of its stack, belongs to its thread,
/// and has the number that no goroutine has.
pub proof fn a_scheduler_has_its_own_stack(id: usize, stack: Stack, m: usize)
    requires
        stack.lo + 928 <= u64::MAX,
    ensures
        ({
            let g = g0_of(id, stack, m);
            &&& g.m == Some(m) && g.goid == 0 && g.stack == stack
            &&& g.sched.sp == stack.hi && g.sched.bp == stack.hi && g.sched.g == Some(id)
            &&& g.sched.pc == 0 && g.sched.ctxt is None
            &&& g.atomicstatus == 0 && g.stackguard0 == stack.lo + 928
        }),
{
}

} // verus!
