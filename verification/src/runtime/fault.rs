//! What is said before the program ends on a fault, and to whom a fault goes.

use vstd::prelude::*;

use super::g::Stack;
use super::stack::X86Regs;

verus! {

/// Windows' code for an access to memory that is not there.
pub const STATUS_ACCESS_VIOLATION: u32 = 0xC000_0005;

/// Windows' code for a stack that is used up.
pub const STATUS_STACK_OVERFLOW: u32 = 0xC000_00FD;

/// Words of a scheduler's stack that a report shows.
pub const SCAN_WORDS: u64 = 20;

/// Hexadecimal digit number `k` of a value, counted from the lowest.
pub open spec fn nibble(v: u64, k: int) -> u64 {
    (v >> ((4 * k) as u64)) & 0xf
}

/// The character of a hexadecimal digit.
pub open spec fn digit_char(d: u64) -> char {
    if d < 10 {
        (48 + d) as char
    } else {
        (87 + d) as char
    }
}

/// A value as `0x` and sixteen hexadecimal digits.
pub open spec fn hex16(v: u64) -> Seq<char> {
    "0x"@ + Seq::new(16, |i: int| digit_char(nibble(v, 15 - i)))
}

/// A digit as text.
fn digit_text(d: u64) -> (s: &'static str)
    requires
        d < 16,
    ensures
        s@ == seq![digit_char(d)],
{
    proof {
        reveal_strlit("0");
        reveal_strlit("1");
        reveal_strlit("2");
        reveal_strlit("3");
        reveal_strlit("4");
        reveal_strlit("5");
        reveal_strlit("6");
        reveal_strlit("7");
        reveal_strlit("8");
        reveal_strlit("9");
        reveal_strlit("a");
        reveal_strlit("b");
        reveal_strlit("c");
        reveal_strlit("d");
        reveal_strlit("e");
        reveal_strlit("f");
    }
    let s: &'static str = if d == 0 {
        "0"
    } else if d == 1 {
        "1"
    } else if d == 2 {
        "2"
    } else if d == 3 {
        "3"
    } else if d == 4 {
        "4"
    } else if d == 5 {
        "5"
    } else if d == 6 {
        "6"
    } else if d == 7 {
        "7"
    } else if d == 8 {
        "8"
    } else if d == 9 {
        "9"
    } else if d == 10 {
        "a"
    } else if d == 11 {
        "b"
    } else if d == 12 {
        "c"
    } else if d == 13 {
        "d"
    } else if d == 14 {
        "e"
    } else {
        "f"
    };
    assert(s@ =~= seq![digit_char(d)]);
    s
}

/// Appends a value as `0x` and sixteen hexadecimal digits.
pub fn write_hex(out: &mut String, val: u64)
    ensures
        final(out)@ == old(out)@ + hex16(val),
{
    let ghost o = out@;
    out.append("0x");
    let ghost all = Seq::new(16, |i: int| digit_char(nibble(val, 15 - i)));
    assert(out@ =~= o + "0x"@ + all.take(0));
    let mut i: u64 = 0;
    while i < 16
        invariant
            i <= 16,
            all == Seq::new(16, |i: int| digit_char(nibble(val, 15 - i))),
            out@ == o + "0x"@ + all.take(i as int),
        decreases 16 - i,
    {
        let shift: u64 = (15 - i) * 4;
        let d: u64 = (val >> shift) & 0xf;
        assert((val >> shift) & 0xf < 16) by (bit_vector);
        out.append(digit_text(d));
        i = i + 1;
        assert(all.take(i as int) =~= all.take(i - 1).push(digit_char(d)));
        assert(out@ =~= o + "0x"@ + all.take(i as int));
    }
    assert(out@ =~= o + hex16(val)) by {
        assert(all.take(16) =~= all);
    }
}

/// A line of a report.
#[derive(Copy, Clone, Debug)]
pub enum Line {
    /// Fixed text.
    Text(&'static str),
    /// A label and a value.
    Value(&'static str, u64),
}

/// The text of a line, values ending with `eol`.
pub open spec fn line_text(l: Line, eol: Seq<char>) -> Seq<char> {
    match l {
        Line::Text(s) => s@,
        Line::Value(s, v) => s@ + hex16(v) + eol,
    }
}

/// The text of a report.
pub open spec fn report_text(lines: Seq<Line>, eol: Seq<char>) -> Seq<char>
    decreases lines.len(),
{
    if lines.len() == 0 {
        Seq::empty()
    } else {
        report_text(lines.drop_last(), eol) + line_text(lines.last(), eol)
    }
}

/// Writes a report out, values ending with `eol`.
pub fn render(lines: &Vec<Line>, eol: &str) -> (out: String)
    ensures
        out@ == report_text(lines@, eol@),
{
    let mut out: String = String::new();
    let mut i: usize = 0;
    while i < lines.len()
        invariant
            i <= lines@.len(),
            out@ == report_text(lines@.take(i as int), eol@),
        decreases lines@.len() - i,
    {
        let ghost before = out@;
        match lines[i] {
            Line::Text(s) => {
                out.append(s);
            },
            Line::Value(s, v) => {
                out.append(s);
                write_hex(&mut out, v);
                out.append(eol);
            },
        }
        assert(out@ =~= before + line_text(lines@[i as int], eol@));
        i = i + 1;
        assert(lines@.take(i as int).drop_last() =~= lines@.take(i - 1));
    }
    assert(lines@.take(i as int) =~= lines@);
    out
}

/// The registers that a report shows; which ones depends on the system.
#[derive(Copy, Clone, Debug)]
pub enum RegDump {
    /// Nothing is known of them.
    Unknown,
    LinuxX86 { rip: u64, rsp: u64 },
    LinuxArm { pc: u64, sp: u64, lr: u64 },
    /// With the word below the stack pointer, where there is one.
    MacX86 { regs: X86Regs, below: Option<u64> },
    MacArm { pc: u64, lr: u64, sp: u64, fp: u64 },
}

/// What is known of the stack of the scheduler on a thread.
#[derive(Copy, Clone, Debug, PartialEq, Eq, Structural)]
pub enum G0Stack {
    /// The thread is none of the scheduler's.
    NoThread,
    /// The thread is one of the scheduler's; its stack is not known.
    Unknown,
    /// There it is.
    At(Stack),
}

/// What is known of a bus error that no stack growth can mend.
pub struct BusError {
    /// The address that was touched.
    pub fault_addr: Option<u64>,
    /// The stack of the goroutine that runs.
    pub stack: Option<Stack>,
    pub regs: RegDump,
    /// The stack of the thread's scheduler.
    pub g0: G0Stack,
    /// Words of that stack, each with its address.
    pub scan: Vec<(u64, u64)>,
}

/// The lines on the registers.
pub open spec fn reg_lines(r: RegDump) -> Seq<Line> {
    match r {
        RegDump::Unknown => seq![],
        RegDump::LinuxX86 { rip, rsp } => seq![
            Line::Value("[go-lib SIGBUS] RIP = ", rip),
            Line::Value("[go-lib SIGBUS] RSP = ", rsp),
        ],
        RegDump::LinuxArm { pc, sp, lr } => seq![
            Line::Value("[go-lib SIGBUS] PC = ", pc),
            Line::Value("[go-lib SIGBUS] SP = ", sp),
            Line::Value("[go-lib SIGBUS] LR = ", lr),
        ],
        RegDump::MacX86 { regs, below } => {
            let s = seq![
                Line::Value("[go-lib SIGBUS] RIP = ", regs.rip),
                Line::Value("[go-lib SIGBUS] RSP = ", regs.rsp),
                Line::Value("[go-lib SIGBUS] RAX = ", regs.rax),
                Line::Value("[go-lib SIGBUS] RBX = ", regs.rbx),
                Line::Value("[go-lib SIGBUS] RCX = ", regs.rcx),
                Line::Value("[go-lib SIGBUS] RDX = ", regs.rdx),
                Line::Value("[go-lib SIGBUS] RSI = ", regs.rsi),
                Line::Value("[go-lib SIGBUS] RDI = ", regs.rdi),
                Line::Value("[go-lib SIGBUS] RBP = ", regs.rbp),
                Line::Value("[go-lib SIGBUS] R12 = ", regs.r12),
                Line::Value("[go-lib SIGBUS] R13 = ", regs.r13),
                Line::Value("[go-lib SIGBUS] R14 = ", regs.r14),
                Line::Value("[go-lib SIGBUS] R15 = ", regs.r15),
            ];
            match below {
                Some(w) if regs.rsp >= 8 => s.push(Line::Value("[go-lib SIGBUS] [RSP-8] = ", w)),
                _ => s,
            }
        },
        RegDump::MacArm { pc, lr, sp, fp } => seq![
            Line::Value("[go-lib SIGBUS] PC = ", pc),
            Line::Value("[go-lib SIGBUS] LR = ", lr),
            Line::Value("[go-lib SIGBUS] SP = ", sp),
            Line::Value("[go-lib SIGBUS] FP = ", fp),
        ],
    }
}

/// The lines on the first `n` words of a scheduler's stack.
pub open spec fn scan_lines(scan: Seq<(u64, u64)>, n: nat) -> Seq<Line>
    decreases n,
{
    if n == 0 {
        seq![]
    } else {
        scan_lines(scan, (n - 1) as nat).push(
            Line::Value("[go-lib SIGBUS]  @", scan[n - 1].0),
        ).push(Line::Value("[go-lib SIGBUS]  = ", scan[n - 1].1))
    }
}

/// The lines on the scheduler's stack.
pub open spec fn g0_lines(r: BusError) -> Seq<Line> {
    match r.g0 {
        G0Stack::NoThread => seq![Line::Text("[go-lib SIGBUS] current_m = NULL\n")],
        G0Stack::Unknown => seq![],
        G0Stack::At(s) => {
            let l = seq![
                Line::Value("[go-lib SIGBUS] g0.stack.lo = ", s.lo),
                Line::Value("[go-lib SIGBUS] g0.stack.hi = ", s.hi),
            ];
            if r.regs is MacX86 {
                l.push(
                    Line::Text("[go-lib SIGBUS] --- g0 stack scan (RSP-8 .. g0.hi) ---\n"),
                ) + scan_lines(r.scan@, r.scan@.len())
            } else {
                l
            }
        },
    }
}

/// The report on a bus error: the address, the goroutine's stack, the verdict,
/// the registers, and the scheduler's stack.
pub open spec fn bus_lines(r: BusError) -> Seq<Line> {
    let addr = match r.fault_addr {
        None => seq![],
        Some(a) => seq![Line::Value("[go-lib SIGBUS] fault_addr = ", a)],
    };
    let stack = match r.stack {
        None => seq![],
        Some(s) => seq![
            Line::Value("[go-lib SIGBUS] stack.lo = ", s.lo),
            Line::Value("[go-lib SIGBUS] stack.hi = ", s.hi),
        ],
    };
    addr + stack + seq![Line::Text("[go-lib SIGBUS] crash (non-stack fault)\n")] + reg_lines(
        r.regs,
    ) + g0_lines(r)
}

fn put_regs(out: &mut Vec<Line>, r: RegDump)
    ensures
        final(out)@ == old(out)@ + reg_lines(r),
{
    match r {
        RegDump::Unknown => {},
        RegDump::LinuxX86 { rip, rsp } => {
            out.push(Line::Value("[go-lib SIGBUS] RIP = ", rip));
            out.push(Line::Value("[go-lib SIGBUS] RSP = ", rsp));
        },
        RegDump::LinuxArm { pc, sp, lr } => {
            out.push(Line::Value("[go-lib SIGBUS] PC = ", pc));
            out.push(Line::Value("[go-lib SIGBUS] SP = ", sp));
            out.push(Line::Value("[go-lib SIGBUS] LR = ", lr));
        },
        RegDump::MacX86 { regs, below } => {
            out.push(Line::Value("[go-lib SIGBUS] RIP = ", regs.rip));
            out.push(Line::Value("[go-lib SIGBUS] RSP = ", regs.rsp));
            out.push(Line::Value("[go-lib SIGBUS] RAX = ", regs.rax));
            out.push(Line::Value("[go-lib SIGBUS] RBX = ", regs.rbx));
            out.push(Line::Value("[go-lib SIGBUS] RCX = ", regs.rcx));
            out.push(Line::Value("[go-lib SIGBUS] RDX = ", regs.rdx));
            out.push(Line::Value("[go-lib SIGBUS] RSI = ", regs.rsi));
            out.push(Line::Value("[go-lib SIGBUS] RDI = ", regs.rdi));
            out.push(Line::Value("[go-lib SIGBUS] RBP = ", regs.rbp));
            out.push(Line::Value("[go-lib SIGBUS] R12 = ", regs.r12));
            out.push(Line::Value("[go-lib SIGBUS] R13 = ", regs.r13));
            out.push(Line::Value("[go-lib SIGBUS] R14 = ", regs.r14));
            out.push(Line::Value("[go-lib SIGBUS] R15 = ", regs.r15));
            if let Some(w) = below {
                if regs.rsp >= 8 {
                    out.push(Line::Value("[go-lib SIGBUS] [RSP-8] = ", w));
                }
            }
        },
        RegDump::MacArm { pc, lr, sp, fp } => {
            out.push(Line::Value("[go-lib SIGBUS] PC = ", pc));
            out.push(Line::Value("[go-lib SIGBUS] LR = ", lr));
            out.push(Line::Value("[go-lib SIGBUS] SP = ", sp));
            out.push(Line::Value("[go-lib SIGBUS] FP = ", fp));
        },
    }
    assert(out@ =~= old(out)@ + reg_lines(r));
}

fn put_scan(out: &mut Vec<Line>, scan: &Vec<(u64, u64)>)
    ensures
        final(out)@ == old(out)@ + scan_lines(scan@, scan@.len()),
{
    let ghost o = out@;
    let mut i: usize = 0;
    assert(out@ =~= o + scan_lines(scan@, 0));
    while i < scan.len()
        invariant
            i <= scan@.len(),
            out@ == o + scan_lines(scan@, i as nat),
        decreases scan@.len() - i,
    {
        let (addr, val) = scan[i];
        out.push(Line::Value("[go-lib SIGBUS]  @", addr));
        out.push(Line::Value("[go-lib SIGBUS]  = ", val));
        i = i + 1;
        assert(out@ =~= o + scan_lines(scan@, i as nat));
    }
}

/// Makes the report on a bus error.
pub fn bus_report(r: &BusError) -> (lines: Vec<Line>)
    ensures
        lines@ == bus_lines(*r),
{
    let mut out: Vec<Line> = Vec::new();
    if let Some(a) = r.fault_addr {
        out.push(Line::Value("[go-lib SIGBUS] fault_addr = ", a));
    }
    if let Some(s) = r.stack {
        out.push(Line::Value("[go-lib SIGBUS] stack.lo = ", s.lo));
        out.push(Line::Value("[go-lib SIGBUS] stack.hi = ", s.hi));
    }
    out.push(Line::Text("[go-lib SIGBUS] crash (non-stack fault)\n"));
    let ghost head = out@;
    put_regs(&mut out, r.regs);
    let ghost mid = out@;
    match r.g0 {
        G0Stack::NoThread => {
            out.push(Line::Text("[go-lib SIGBUS] current_m = NULL\n"));
        },
        G0Stack::Unknown => {},
        G0Stack::At(s) => {
            out.push(Line::Value("[go-lib SIGBUS] g0.stack.lo = ", s.lo));
            out.push(Line::Value("[go-lib SIGBUS] g0.stack.hi = ", s.hi));
            if let RegDump::MacX86 { regs: _, below: _ } = r.regs {
                out.push(
                    Line::Text("[go-lib SIGBUS] --- g0 stack scan (RSP-8 .. g0.hi) ---\n"),
                );
                put_scan(&mut out, &r.scan);
            }
        },
    }
    assert(out@ =~= mid + g0_lines(*r));
    assert(out@ =~= bus_lines(*r));
    out
}

/// The addresses of a scheduler's stack that a report shows: twenty words from
/// the one below the stack pointer, as far as they lie on the stack.
pub open spec fn scan_addrs(rsp: u64, hi: u64) -> Seq<u64> {
    let start = if rsp >= 8 {
        rsp - 8
    } else {
        rsp as int
    };
    let n = if start >= hi {
        0
    } else if start + 160 <= hi {
        20
    } else {
        (hi - start + 7) / 8
    };
    Seq::new(n as nat, |i: int| (start + 8 * i) as u64)
}

/// Lists the addresses of a scheduler's stack that a report shows.
pub fn scan_range(rsp: u64, hi: u64) -> (addrs: Vec<u64>)
    requires
        rsp + 160 <= u64::MAX,
    ensures
        addrs@ == scan_addrs(rsp, hi),
{
    let start: u64 = if rsp >= 8 {
        rsp - 8
    } else {
        rsp
    };
    let stop: u64 = start + SCAN_WORDS * 8;
    let end: u64 = if hi < stop {
        hi
    } else {
        stop
    };
    let mut addrs: Vec<u64> = Vec::new();
    let mut addr: u64 = start;
    let ghost all = scan_addrs(rsp, hi);
    while addr < end
        invariant
            start == (if rsp >= 8 {
                rsp - 8
            } else {
                rsp as int
            }),
            rsp + 160 <= u64::MAX,
            end <= start + 160,
            end == (if hi < start + 160 {
                hi as int
            } else {
                start + 160
            }),
            all == scan_addrs(rsp, hi),
            addr == start + 8 * addrs@.len(),
            addrs@.len() <= all.len(),
            addrs@ == all.take(addrs@.len() as int),
        decreases end + 8 - addr,
    {
        addrs.push(addr);
        assert(addrs@ =~= all.take(addrs@.len() as int));
        addr = addr + 8;
    }
    assert(addrs@ =~= all);
    addrs
}

/// The handler that was there for a signal before.
#[derive(Copy, Clone, Debug, PartialEq, Eq, Structural)]
pub enum PrevHandler {
    /// The system's own.
    Default,
    /// The signal is ignored.
    Ignore,
    /// A function.
    Function,
}

/// What happens to a signal that the scheduler does not handle.
#[derive(Copy, Clone, Debug, PartialEq, Eq, Structural)]
pub enum Fallback {
    /// The former handler gets it.
    Chain,
    /// It is raised again.
    Raise,
    /// Nothing.
    Drop,
}

/// Decides what happens to a memory fault that is no stack growth.
pub fn sigsegv_fallback(prev: Option<PrevHandler>) -> (f: Fallback)
    ensures
        f == (if prev == Some(PrevHandler::Function) {
            Fallback::Chain
        } else {
            Fallback::Raise
        }),
{
    match prev {
        Some(PrevHandler::Function) => Fallback::Chain,
        _ => Fallback::Raise,
    }
}

/// Decides what happens to a preemption signal that was not for the scheduler.
pub fn sigurg_fallback(prev: Option<PrevHandler>) -> (f: Fallback)
    ensures
        f == (if prev == Some(PrevHandler::Function) {
            Fallback::Chain
        } else {
            Fallback::Drop
        }),
{
    match prev {
        Some(PrevHandler::Function) => Fallback::Chain,
        _ => Fallback::Drop,
    }
}

/// What is known of an exception on Windows.
#[derive(Copy, Clone, Debug, PartialEq, Eq, Structural)]
pub struct Exception {
    pub code: u32,
    /// Address of the instruction.
    pub instr: u64,
    pub n_params: u32,
    pub fault_type: u64,
    pub fault_addr: u64,
    pub rip: u64,
    pub rsp: u64,
    pub rbp: u64,
    pub rax: u64,
    pub rcx: u64,
    pub rdx: u64,
    pub rbx: u64,
    pub rsi: u64,
    pub rdi: u64,
    pub r8: u64,
    pub r9: u64,
}

/// Four bytes as a number, the lowest first.
pub open spec fn le32(b: Seq<u8>, at: int) -> u32 {
    (b[at] + 0x100 * b[at + 1] + 0x1_0000 * b[at + 2] + 0x100_0000 * b[at + 3]) as u32
}

/// Eight bytes as a number, the lowest first.
pub open spec fn le64(b: Seq<u8>, at: int) -> u64 {
    (le32(b, at) + 0x1_0000_0000 * le32(b, at + 4)) as u64
}

fn read32(b: &Vec<u8>, at: usize) -> (v: u32)
    requires
        at <= 1024,
        at + 4 <= b@.len(),
    ensures
        v == le32(b@, at as int),
{
    b[at] as u32 + 0x100 * b[at + 1] as u32 + 0x1_0000 * b[at + 2] as u32 + 0x100_0000 * b[at
        + 3] as u32
}

fn read64(b: &Vec<u8>, at: usize) -> (v: u64)
    requires
        at <= 512,
        at + 8 <= b@.len(),
    ensures
        v == le64(b@, at as int),
{
    read32(b, at) as u64 + 0x1_0000_0000 * read32(b, at + 4) as u64
}

/// What an exception record and a thread context say, by their layout.
pub open spec fn exception_of(record: Seq<u8>, context: Seq<u8>) -> Exception {
    let two = le32(record, 24) >= 2;
    Exception {
        code: le32(record, 0),
        instr: le64(record, 16),
        n_params: le32(record, 24),
        fault_type: if two {
            le64(record, 32)
        } else {
            0
        },
        fault_addr: if two {
            le64(record, 40)
        } else {
            0
        },
        rip: le64(context, 248),
        rsp: le64(context, 152),
        rbp: le64(context, 160),
        rax: le64(context, 120),
        rcx: le64(context, 128),
        rdx: le64(context, 136),
        rbx: le64(context, 144),
        rsi: le64(context, 168),
        rdi: le64(context, 176),
        r8: le64(context, 184),
        r9: le64(context, 192),
    }
}

/// Reads an exception record and a thread context.
pub fn read_exception(record: &Vec<u8>, context: &Vec<u8>) -> (e: Exception)
    requires
        record@.len() >= 48,
        context@.len() >= 256,
    ensures
        e == exception_of(record@, context@),
{
    let n_params: u32 = read32(record, 24);
    let two: bool = n_params >= 2;
    Exception {
        code: read32(record, 0),
        instr: read64(record, 16),
        n_params,
        fault_type: if two {
            read64(record, 32)
        } else {
            0
        },
        fault_addr: if two {
            read64(record, 40)
        } else {
            0
        },
        rip: read64(context, 248),
        rsp: read64(context, 152),
        rbp: read64(context, 160),
        rax: read64(context, 120),
        rcx: read64(context, 128),
        rdx: read64(context, 136),
        rbx: read64(context, 144),
        rsi: read64(context, 168),
        rdi: read64(context, 176),
        r8: read64(context, 184),
        r9: read64(context, 192),
    }
}

/// An exception on which the program ends with a report.
pub open spec fn is_fatal(code: u32) -> bool {
    code == STATUS_ACCESS_VIOLATION || code == STATUS_STACK_OVERFLOW
}

/// Decides whether an exception ends the program with a report.  `handling`
/// tells that this is happening already; then, and for other exceptions, the
/// search for a handler goes on.
pub fn veh_filter(handling: &mut bool, code: u32) -> (report: bool)
    ensures
        report == (!*old(handling) && is_fatal(code)),
        *final(handling) == (*old(handling) || report),
{
    if *handling {
        return false;
    }
    *handling = true;
    if code != STATUS_ACCESS_VIOLATION && code != STATUS_STACK_OVERFLOW {
        *handling = false;
        return false;
    }
    true
}

/// The full report on an exception.
pub open spec fn veh_lines(e: Exception) -> Seq<Line> {
    let head = seq![
        Line::Value("[go-lib VEH] exception code   : ", e.code as u64),
        Line::Value("[go-lib VEH] ExceptionAddress : ", e.instr),
    ];
    let fault = if e.n_params >= 2 {
        seq![
            Line::Value("[go-lib VEH] fault_type (0=rd,1=wr,8=DEP) : ", e.fault_type),
            Line::Value("[go-lib VEH] fault_addr  : ", e.fault_addr),
        ]
    } else {
        seq![]
    };
    head + fault + seq![
        Line::Value("[go-lib VEH] RIP : ", e.rip),
        Line::Value("[go-lib VEH] RSP : ", e.rsp),
        Line::Value("[go-lib VEH] RBP : ", e.rbp),
        Line::Value("[go-lib VEH] RAX : ", e.rax),
        Line::Value("[go-lib VEH] RCX : ", e.rcx),
        Line::Value("[go-lib VEH] RDX : ", e.rdx),
        Line::Value("[go-lib VEH] RBX : ", e.rbx),
        Line::Value("[go-lib VEH] RSI : ", e.rsi),
        Line::Value("[go-lib VEH] RDI : ", e.rdi),
        Line::Value("[go-lib VEH] R8  : ", e.r8),
        Line::Value("[go-lib VEH] R9  : ", e.r9),
    ]
}

/// The short report on an exception.
pub open spec fn veh_short_lines(e: Exception) -> Seq<Line> {
    seq![
        Line::Value("[go-lib VEH] exception code   : ", e.code as u64),
        Line::Value("[go-lib VEH] ExceptionAddress : ", e.instr),
        Line::Value("[go-lib VEH] RIP : ", e.rip),
        Line::Value("[go-lib VEH] RSP : ", e.rsp),
    ]
}

/// The report on an exception that is kept in a file.
pub open spec fn veh_file_lines(e: Exception) -> Seq<Line> {
    let head = seq![
        Line::Value("[go-lib VEH] exception code   : ", e.code as u64),
        Line::Value("[go-lib VEH] ExceptionAddress : ", e.instr),
    ];
    let fault = if e.n_params >= 2 {
        seq![
            Line::Value("[go-lib VEH] fault_type : ", e.fault_type),
            Line::Value("[go-lib VEH] fault_addr : ", e.fault_addr),
        ]
    } else {
        seq![]
    };
    head + fault + seq![
        Line::Value("[go-lib VEH] RIP : ", e.rip),
        Line::Value("[go-lib VEH] RSP : ", e.rsp),
        Line::Value("[go-lib VEH] RBP : ", e.rbp),
        Line::Value("[go-lib VEH] RAX : ", e.rax),
        Line::Value("[go-lib VEH] RCX : ", e.rcx),
        Line::Value("[go-lib VEH] RDX : ", e.rdx),
    ]
}

/// Makes the full report on an exception, for standard error.
pub fn veh_report(e: &Exception) -> (lines: Vec<Line>)
    ensures
        lines@ == veh_lines(*e),
{
    let mut out: Vec<Line> = Vec::new();
    out.push(Line::Value("[go-lib VEH] exception code   : ", e.code as u64));
    out.push(Line::Value("[go-lib VEH] ExceptionAddress : ", e.instr));
    if e.n_params >= 2 {
        out.push(Line::Value("[go-lib VEH] fault_type (0=rd,1=wr,8=DEP) : ", e.fault_type));
        out.push(Line::Value("[go-lib VEH] fault_addr  : ", e.fault_addr));
    }
    out.push(Line::Value("[go-lib VEH] RIP : ", e.rip));
    out.push(Line::Value("[go-lib VEH] RSP : ", e.rsp));
    out.push(Line::Value("[go-lib VEH] RBP : ", e.rbp));
    out.push(Line::Value("[go-lib VEH] RAX : ", e.rax));
    out.push(Line::Value("[go-lib VEH] RCX : ", e.rcx));
    out.push(Line::Value("[go-lib VEH] RDX : ", e.rdx));
    out.push(Line::Value("[go-lib VEH] RBX : ", e.rbx));
    out.push(Line::Value("[go-lib VEH] RSI : ", e.rsi));
    out.push(Line::Value("[go-lib VEH] RDI : ", e.rdi));
    out.push(Line::Value("[go-lib VEH] R8  : ", e.r8));
    out.push(Line::Value("[go-lib VEH] R9  : ", e.r9));
    assert(out@ =~= veh_lines(*e));
    out
}

/// Makes the short report on an exception, for standard output.
pub fn veh_short_report(e: &Exception) -> (lines: Vec<Line>)
    ensures
        lines@ == veh_short_lines(*e),
{
    let mut out: Vec<Line> = Vec::new();
    out.push(Line::Value("[go-lib VEH] exception code   : ", e.code as u64));
    out.push(Line::Value("[go-lib VEH] ExceptionAddress : ", e.instr));
    out.push(Line::Value("[go-lib VEH] RIP : ", e.rip));
    out.push(Line::Value("[go-lib VEH] RSP : ", e.rsp));
    assert(out@ =~= veh_short_lines(*e));
    out
}

/// Makes the report on an exception that is kept in a file.
pub fn veh_file_report(e: &Exception) -> (lines: Vec<Line>)
    ensures
        lines@ == veh_file_lines(*e),
{
    let mut out: Vec<Line> = Vec::new();
    out.push(Line::Value("[go-lib VEH] exception code   : ", e.code as u64));
    out.push(Line::Value("[go-lib VEH] ExceptionAddress : ", e.instr));
    if e.n_params >= 2 {
        out.push(Line::Value("[go-lib VEH] fault_type : ", e.fault_type));
        out.push(Line::Value("[go-lib VEH] fault_addr : ", e.fault_addr));
    }
    out.push(Line::Value("[go-lib VEH] RIP : ", e.rip));
    out.push(Line::Value("[go-lib VEH] RSP : ", e.rsp));
    out.push(Line::Value("[go-lib VEH] RBP : ", e.rbp));
    out.push(Line::Value("[go-lib VEH] RAX : ", e.rax));
    out.push(Line::Value("[go-lib VEH] RCX : ", e.rcx));
    out.push(Line::Value("[go-lib VEH] RDX : ", e.rdx));
    assert(out@ =~= veh_file_lines(*e));
    out
}

/// Two values that are written alike are equal.
pub proof fn hex_tells_values_apart(a: u64, b: u64)
    requires
        hex16(a) == hex16(b),
    ensures
        a == b,
{
    assert forall|k: int| 0 <= k < 16 implies nibble(a, k) == nibble(b, k) by {
        let i = "0x"@.len() + 15 - k;
        assert(hex16(a)[i] == digit_char(nibble(a, k)));
        assert(hex16(b)[i] == digit_char(nibble(b, k)));
        let sh = (4 * k) as u64;
        assert((a >> sh) & 0xf < 16 && (b >> sh) & 0xf < 16) by (bit_vector);
    }
    assert(nibble(a, 0) == nibble(b, 0) && nibble(a, 1) == nibble(b, 1) && nibble(a, 2) == nibble(
        b,
        2,
    ) && nibble(a, 3) == nibble(b, 3) && nibble(a, 4) == nibble(b, 4) && nibble(a, 5) == nibble(
        b,
        5,
    ) && nibble(a, 6) == nibble(b, 6) && nibble(a, 7) == nibble(b, 7) && nibble(a, 8) == nibble(
        b,
        8,
    ) && nibble(a, 9) == nibble(b, 9) && nibble(a, 10) == nibble(b, 10) && nibble(a, 11) == nibble(
        b,
        11,
    ) && nibble(a, 12) == nibble(b, 12) && nibble(a, 13) == nibble(b, 13) && nibble(a, 14)
        == nibble(b, 14) && nibble(a, 15) == nibble(b, 15));
    assert(a == b) by (bit_vector)
        requires
            (a >> 0u64) & 0xf == (b >> 0u64) & 0xf,
            (a >> 4u64) & 0xf == (b >> 4u64) & 0xf,
            (a >> 8u64) & 0xf == (b >> 8u64) & 0xf,
            (a >> 12u64) & 0xf == (b >> 12u64) & 0xf,
            (a >> 16u64) & 0xf == (b >> 16u64) & 0xf,
            (a >> 20u64) & 0xf == (b >> 20u64) & 0xf,
            (a >> 24u64) & 0xf == (b >> 24u64) & 0xf,
            (a >> 28u64) & 0xf == (b >> 28u64) & 0xf,
            (a >> 32u64) & 0xf == (b >> 32u64) & 0xf,
            (a >> 36u64) & 0xf == (b >> 36u64) & 0xf,
            (a >> 40u64) & 0xf == (b >> 40u64) & 0xf,
            (a >> 44u64) & 0xf == (b >> 44u64) & 0xf,
            (a >> 48u64) & 0xf == (b >> 48u64) & 0xf,
            (a >> 52u64) & 0xf == (b >> 52u64) & 0xf,
            (a >> 56u64) & 0xf == (b >> 56u64) & 0xf,
            (a >> 60u64) & 0xf == (b >> 60u64) & 0xf,
    ;
}

/// The number that hexadecimal digits write.
pub open spec fn read_hex(s: Seq<char>) -> nat
    decreases s.len(),
{
    if s.len() == 0 {
        0
    } else {
        let c = s.last();
        let d = if '0' <= c <= '9' {
            c as nat - '0' as nat
        } else {
            c as nat - 'a' as nat + 10
        };
        read_hex(s.drop_last()) * 16 + d as nat
    }
}

proof fn lemma_read_back(v: u64, i: int)
    requires
        0 <= i <= 16,
    ensures
        i == 0 ==> read_hex(hex16(v).skip(2).take(i)) == 0,
        i > 0 ==> read_hex(hex16(v).skip(2).take(i)) == v >> ((64 - 4 * i) as u64),
    decreases i,
{
    reveal_strlit("0x");
    let all = hex16(v).skip(2);
    if i > 0 {
        lemma_read_back(v, i - 1);
        assert(all.take(i).drop_last() =~= all.take(i - 1));
        let sh = (64 - 4 * i) as u64;
        let d = nibble(v, 16 - i);
        assert(all[i - 1] == digit_char(nibble(v, 15 - (i - 1))));
        assert(all.take(i).last() == digit_char(d));
        assert((v >> sh) & 0xf < 16) by (bit_vector);
        if i > 1 {
            let up = (64 - 4 * (i - 1)) as u64;
            assert(v >> sh == 16 * (v >> up) + ((v >> sh) & 0xf)) by (bit_vector)
                requires
                    up == sh + 4,
                    sh < 60,
            ;
        } else {
            assert(v >> 60u64 == (v >> 60u64) & 0xf) by (bit_vector);
        }
    }
}

/// What a report writes of a value is `0x` and sixteen digits, from which the
/// value is read back.
pub proof fn a_written_value_is_read_back(v: u64)
    ensures
        hex16(v).len() == 18,
        hex16(v)[0] == '0' && hex16(v)[1] == 'x',
        read_hex(hex16(v).skip(2)) == v,
        forall|i: int|
            2 <= i < 18 ==> '0' <= (#[trigger] hex16(v)[i]) <= '9' || 'a' <= hex16(v)[i] <= 'f',
{
    reveal_strlit("0x");
    lemma_read_back(v, 16);
    assert(hex16(v).skip(2).take(16) =~= hex16(v).skip(2));
    assert(v >> 0u64 == v) by (bit_vector);
    assert forall|i: int| 2 <= i < 18 implies '0' <= (#[trigger] hex16(v)[i]) <= '9' || 'a'
        <= hex16(v)[i] <= 'f' by {
        let sh = (4 * (17 - i)) as u64;
        assert(hex16(v)[i] == digit_char(nibble(v, 15 - (i - 2))));
        assert((v >> sh) & 0xf < 16) by (bit_vector);
    }
}

/// A report is its lines one after the other: a text as it is, a value behind its
/// label and before the end of the line.
pub proof fn a_report_is_its_lines(a: Seq<Line>, b: Seq<Line>, s: &'static str, v: u64, eol: Seq<char>)
    ensures
        report_text(a + b, eol) == report_text(a, eol) + report_text(b, eol),
        report_text(seq![], eol) == Seq::<char>::empty(),
        report_text(seq![Line::Text(s)], eol) == s@,
        report_text(seq![Line::Value(s, v)], eol) == s@ + hex16(v) + eol,
    decreases b.len(),
{
    assert(seq![Line::Text(s)].drop_last() =~= seq![]);
    assert(seq![Line::Value(s, v)].drop_last() =~= seq![]);
    reveal_with_fuel(report_text, 2);
    if b.len() > 0 {
        a_report_is_its_lines(a, b.drop_last(), s, v, eol);
        assert((a + b).drop_last() =~= a + b.drop_last());
        assert((a + b).last() == b.last());
        assert(report_text(a + b, eol) =~= report_text(a, eol) + report_text(b, eol));
    } else {
        assert(a + b =~= a);
        assert(report_text(a, eol) + report_text(b, eol) =~= report_text(a, eol));
    }
}

/// Each word that is shown of a stack is shown with its address, in order.
pub proof fn each_word_is_shown_with_its_address(scan: Seq<(u64, u64)>, n: nat, i: int)
    requires
        n <= scan.len(),
        0 <= i < n,
    ensures
        scan_lines(scan, n).len() == 2 * n,
        scan_lines(scan, n)[2 * i] == Line::Value("[go-lib SIGBUS]  @", scan[i].0),
        scan_lines(scan, n)[2 * i + 1] == Line::Value("[go-lib SIGBUS]  = ", scan[i].1),
    decreases n,
{
    if n > 1 {
        if i < n - 1 {
            each_word_is_shown_with_its_address(scan, (n - 1) as nat, i);
        } else {
            each_word_is_shown_with_its_address(scan, (n - 1) as nat, 0);
        }
    } else {
        assert(scan_lines(scan, 0).len() == 0);
    }
}

/// The words that are shown of a stack lie on it, eight bytes apart from the one
/// below the stack pointer on, and are all that do, up to twenty.
pub proof fn the_top_of_a_stack_is_shown(rsp: u64, hi: u64, a: int, i: int)
    requires
        8 <= rsp,
        rsp + 160 <= u64::MAX,
    ensures
        scan_addrs(rsp, hi).len() <= 20,
        0 <= i < scan_addrs(rsp, hi).len() ==> scan_addrs(rsp, hi)[i] == rsp - 8 + 8 * i
            && scan_addrs(rsp, hi)[i] < hi,
        rsp - 8 <= a < rsp + 152 && a < hi && (a - (rsp - 8)) % 8 == 0 ==> scan_addrs(
            rsp,
            hi,
        ).contains(a as u64),
        hi <= rsp - 8 ==> scan_addrs(rsp, hi).len() == 0,
{
    let s = scan_addrs(rsp, hi);
    if rsp - 8 <= a < rsp + 152 && a < hi && (a - (rsp - 8)) % 8 == 0 {
        let k = (a - (rsp - 8)) / 8;
        assert(a == rsp - 8 + 8 * k);
        assert(0 <= k < s.len());
        assert(s[k] == a as u64);
    }
}

/// A number stands in four bytes from `at` on, the lowest first.
pub open spec fn stored32(b: Seq<u8>, at: int, x: u32) -> bool {
    &&& b[at] == x % 256
    &&& b[at + 1] == x / 256 % 256
    &&& b[at + 2] == x / 65536 % 256
    &&& b[at + 3] == x / 16777216
}

/// A number stands in eight bytes from `at` on, the lowest first.
pub open spec fn stored64(b: Seq<u8>, at: int, x: u64) -> bool {
    &&& stored32(b, at, (x % 4294967296) as u32)
    &&& stored32(b, at + 4, (x / 4294967296) as u32)
}

/// What was stored is read back.
pub proof fn a_stored_number_is_read_back(b: Seq<u8>, at: int, x: u32, y: u64)
    ensures
        stored32(b, at, x) ==> le32(b, at) == x,
        stored64(b, at, y) ==> le64(b, at) == y,
{
    if stored64(b, at, y) {
        lemma_stored32(b, at, (y % 4294967296) as u32);
        lemma_stored32(b, at + 4, (y / 4294967296) as u32);
    }
    if stored32(b, at, x) {
        lemma_stored32(b, at, x);
    }
}

proof fn lemma_stored32(b: Seq<u8>, at: int, x: u32)
    requires
        stored32(b, at, x),
    ensures
        le32(b, at) == x,
{
    assert(x == x % 256 + 256 * (x / 256 % 256) + 65536 * (x / 65536 % 256) + 16777216 * (x
        / 16777216)) by (bit_vector);
}

/// An exception is read from where the system's layout puts its parts: the code,
/// the instruction and the number of parameters from the record; the registers
/// from the context.  The kind and the address of the fault are there only with
/// two parameters or more.
pub proof fn an_exception_is_read_by_its_layout(record: Seq<u8>, context: Seq<u8>, e: Exception)
    requires
        stored32(record, 0, e.code),
        stored64(record, 16, e.instr),
        stored32(record, 24, e.n_params),
        stored64(record, 32, e.fault_type),
        stored64(record, 40, e.fault_addr),
        stored64(context, 120, e.rax),
        stored64(context, 128, e.rcx),
        stored64(context, 136, e.rdx),
        stored64(context, 144, e.rbx),
        stored64(context, 152, e.rsp),
        stored64(context, 160, e.rbp),
        stored64(context, 168, e.rsi),
        stored64(context, 176, e.rdi),
        stored64(context, 184, e.r8),
        stored64(context, 192, e.r9),
        stored64(context, 248, e.rip),
    ensures
        e.n_params >= 2 ==> exception_of(record, context) == e,
        e.n_params < 2 ==> exception_of(record, context) == (Exception {
            fault_type: 0,
            fault_addr: 0,
            ..e
        }),
{
    a_stored_number_is_read_back(record, 0, e.code, 0);
    a_stored_number_is_read_back(record, 24, e.n_params, 0);
    a_stored_number_is_read_back(record, 16, 0, e.instr);
    a_stored_number_is_read_back(record, 32, 0, e.fault_type);
    a_stored_number_is_read_back(record, 40, 0, e.fault_addr);
    a_stored_number_is_read_back(context, 120, 0, e.rax);
    a_stored_number_is_read_back(context, 128, 0, e.rcx);
    a_stored_number_is_read_back(context, 136, 0, e.rdx);
    a_stored_number_is_read_back(context, 144, 0, e.rbx);
    a_stored_number_is_read_back(context, 152, 0, e.rsp);
    a_stored_number_is_read_back(context, 160, 0, e.rbp);
    a_stored_number_is_read_back(context, 168, 0, e.rsi);
    a_stored_number_is_read_back(context, 176, 0, e.rdi);
    a_stored_number_is_read_back(context, 184, 0, e.r8);
    a_stored_number_is_read_back(context, 192, 0, e.r9);
    a_stored_number_is_read_back(context, 248, 0, e.rip);
}

/// A program ends on an access to memory that is not there and on a stack that is
/// used up, and on nothing else.
pub proof fn only_two_exceptions_are_fatal(code: u32)
    ensures
        is_fatal(code) <==> code == 0xC000_0005 || code == 0xC000_00FD,
{
}

/// The full report shows the code and the instruction, then of a fault with two
/// parameters or more its kind and its address, then all registers, and no more.
pub proof fn the_full_report_shows_everything(e: Exception)
    ensures
        ({
            let l = veh_lines(e);
            let k = if e.n_params >= 2 {
                4int
            } else {
                2
            };
            &&& l.len() == k + 11
            &&& l[0] == Line::Value("[go-lib VEH] exception code   : ", e.code as u64)
            &&& l[1] == Line::Value("[go-lib VEH] ExceptionAddress : ", e.instr)
            &&& k == 4 ==> l[2] == Line::Value(
                "[go-lib VEH] fault_type (0=rd,1=wr,8=DEP) : ",
                e.fault_type,
            ) && l[3] == Line::Value("[go-lib VEH] fault_addr  : ", e.fault_addr)
            &&& l[k] == Line::Value("[go-lib VEH] RIP : ", e.rip)
            &&& l[k + 1] == Line::Value("[go-lib VEH] RSP : ", e.rsp)
            &&& l[k + 2] == Line::Value("[go-lib VEH] RBP : ", e.rbp)
            &&& l[k + 3] == Line::Value("[go-lib VEH] RAX : ", e.rax)
            &&& l[k + 4] == Line::Value("[go-lib VEH] RCX : ", e.rcx)
            &&& l[k + 5] == Line::Value("[go-lib VEH] RDX : ", e.rdx)
            &&& l[k + 6] == Line::Value("[go-lib VEH] RBX : ", e.rbx)
            &&& l[k + 7] == Line::Value("[go-lib VEH] RSI : ", e.rsi)
            &&& l[k + 8] == Line::Value("[go-lib VEH] RDI : ", e.rdi)
            &&& l[k + 9] == Line::Value("[go-lib VEH] R8  : ", e.r8)
            &&& l[k + 10] == Line::Value("[go-lib VEH] R9  : ", e.r9)
        }),
{
}

/// The short report and the one that is kept in a file show parts of the full one,
/// in its order: the short one leaves out the fault and all registers but two, the
/// one in a file the last five.
pub proof fn the_other_reports_show_parts(e: Exception)
    ensures
        ({
            let l = veh_lines(e);
            let k = if e.n_params >= 2 {
                4int
            } else {
                2
            };
            &&& veh_short_lines(e) == l.take(2) + l.subrange(k, k + 2)
            &&& veh_file_lines(e).len() == k + 6
            &&& veh_file_lines(e).take(2) == l.take(2)
            &&& veh_file_lines(e).skip(k) == l.subrange(k, k + 6)
            &&& k == 4 ==> veh_file_lines(e)[2] == Line::Value(
                "[go-lib VEH] fault_type : ",
                e.fault_type,
            ) && veh_file_lines(e)[3] == Line::Value("[go-lib VEH] fault_addr : ", e.fault_addr)
        }),
{
    let l = veh_lines(e);
    let k = if e.n_params >= 2 {
        4int
    } else {
        2
    };
    assert(veh_short_lines(e) =~= l.take(2) + l.subrange(k, k + 2));
    assert(veh_file_lines(e).take(2) =~= l.take(2));
    assert(veh_file_lines(e).skip(k) =~= l.subrange(k, k + 6));
}

/// The report on a bus error begins with the address, where it is known, and the
/// bounds of the goroutine's stack, where there is one; then comes the verdict,
/// once; then what is known of the registers and of the scheduler's stack.
pub proof fn a_bus_report_says_what_is_known(r: BusError)
    ensures
        ({
            let l = bus_lines(r);
            let a = if r.fault_addr is Some {
                1int
            } else {
                0
            };
            let b = if r.stack is Some {
                a + 2
            } else {
                a
            };
            &&& r.fault_addr matches Some(x) ==> l[0] == Line::Value(
                "[go-lib SIGBUS] fault_addr = ",
                x,
            )
            &&& r.stack matches Some(s) ==> l[a] == Line::Value("[go-lib SIGBUS] stack.lo = ", s.lo)
                && l[a + 1] == Line::Value("[go-lib SIGBUS] stack.hi = ", s.hi)
            &&& l[b] == Line::Text("[go-lib SIGBUS] crash (non-stack fault)\n")
            &&& l.skip(b + 1) == reg_lines(r.regs) + g0_lines(r)
            &&& l.len() == b + 1 + reg_lines(r.regs).len() + g0_lines(r).len()
        }),
{
    let l = bus_lines(r);
    let a = if r.fault_addr is Some {
        1int
    } else {
        0
    };
    let b = if r.stack is Some {
        a + 2
    } else {
        a
    };
    assert(l.skip(b + 1) =~= reg_lines(r.regs) + g0_lines(r));
}

/// The registers are shown as far as the system gives them; the word below the
/// stack pointer is shown where there is one.
pub proof fn all_known_registers_are_shown(
    regs: X86Regs,
    below: Option<u64>,
    a: u64,
    b: u64,
    c: u64,
    d: u64,
)
    ensures
        reg_lines(RegDump::Unknown).len() == 0,
        reg_lines(RegDump::LinuxX86 { rip: a, rsp: b }) == seq![
            Line::Value("[go-lib SIGBUS] RIP = ", a),
            Line::Value("[go-lib SIGBUS] RSP = ", b),
        ],
        reg_lines(RegDump::LinuxArm { pc: a, sp: b, lr: c }) == seq![
            Line::Value("[go-lib SIGBUS] PC = ", a),
            Line::Value("[go-lib SIGBUS] SP = ", b),
            Line::Value("[go-lib SIGBUS] LR = ", c),
        ],
        reg_lines(RegDump::MacArm { pc: a, lr: b, sp: c, fp: d }) == seq![
            Line::Value("[go-lib SIGBUS] PC = ", a),
            Line::Value("[go-lib SIGBUS] LR = ", b),
            Line::Value("[go-lib SIGBUS] SP = ", c),
            Line::Value("[go-lib SIGBUS] FP = ", d),
        ],
        ({
            let l = reg_lines(RegDump::MacX86 { regs, below });
            &&& l.len() == (if below is Some && regs.rsp >= 8 {
                14int
            } else {
                13
            })
            &&& l[0] == Line::Value("[go-lib SIGBUS] RIP = ", regs.rip)
            &&& l[1] == Line::Value("[go-lib SIGBUS] RSP = ", regs.rsp)
            &&& l[2] == Line::Value("[go-lib SIGBUS] RAX = ", regs.rax)
            &&& l[3] == Line::Value("[go-lib SIGBUS] RBX = ", regs.rbx)
            &&& l[4] == Line::Value("[go-lib SIGBUS] RCX = ", regs.rcx)
            &&& l[5] == Line::Value("[go-lib SIGBUS] RDX = ", regs.rdx)
            &&& l[6] == Line::Value("[go-lib SIGBUS] RSI = ", regs.rsi)
            &&& l[7] == Line::Value("[go-lib SIGBUS] RDI = ", regs.rdi)
            &&& l[8] == Line::Value("[go-lib SIGBUS] RBP = ", regs.rbp)
            &&& l[9] == Line::Value("[go-lib SIGBUS] R12 = ", regs.r12)
            &&& l[10] == Line::Value("[go-lib SIGBUS] R13 = ", regs.r13)
            &&& l[11] == Line::Value("[go-lib SIGBUS] R14 = ", regs.r14)
            &&& l[12] == Line::Value("[go-lib SIGBUS] R15 = ", regs.r15)
            &&& below is Some && regs.rsp >= 8 ==> l[13] == Line::Value(
                "[go-lib SIGBUS] [RSP-8] = ",
                below->0,
            )
        }),
{
}

/// Of the scheduler's stack the report says that there is none on a thread of
/// others, nothing where it is not known, and else its bounds; where all registers
/// are known on a Mac, its words follow.
pub proof fn the_schedulers_stack_is_shown(r: BusError)
    ensures
        r.g0 == G0Stack::NoThread ==> g0_lines(r) == seq![
            Line::Text("[go-lib SIGBUS] current_m = NULL\n"),
        ],
        r.g0 == G0Stack::Unknown ==> g0_lines(r).len() == 0,
        r.g0 matches G0Stack::At(s) ==> {
            let l = g0_lines(r);
            &&& l[0] == Line::Value("[go-lib SIGBUS] g0.stack.lo = ", s.lo)
            &&& l[1] == Line::Value("[go-lib SIGBUS] g0.stack.hi = ", s.hi)
            &&& r.regs !is MacX86 ==> l.len() == 2
            &&& r.regs is MacX86 ==> l[2] == Line::Text(
                "[go-lib SIGBUS] --- g0 stack scan (RSP-8 .. g0.hi) ---\n",
            ) && l.skip(3) == scan_lines(r.scan@, r.scan@.len())
        },
{
    if let G0Stack::At(s) = r.g0 {
        if r.regs is MacX86 {
            assert(g0_lines(r).skip(3) =~= scan_lines(r.scan@, r.scan@.len()));
        }
    }
}

} // verus!
