//! What becomes of a panic in a goroutine.

use vstd::prelude::*;

verus! {

/// How many boxes around a panic's payload are opened.
pub const MAX_DEPTH: u32 = 4;

/// The payload of a panic.
pub enum Payload {
    /// A text.
    Text(String),
    /// A payload in a box, as it is when a panic is raised again.
    Boxed(Box<Payload>),
    /// Anything else.
    Other,
}

impl Payload {
    /// The text inside, where it lies in at most `depth` boxes.
    pub open spec fn text(self, depth: nat) -> Option<Seq<char>>
        decreases depth,
    {
        match self {
            Payload::Text(s) => Some(s@),
            Payload::Boxed(inner) => if depth == 0 {
                None
            } else {
                inner.text((depth - 1) as nat)
            },
            Payload::Other => None,
        }
    }

    /// The message for the user.
    pub open spec fn message(self) -> Seq<char> {
        match self.text(4) {
            Some(s) => s,
            None => "(unknown panic payload)"@,
        }
    }
}

fn find_text(p: &Payload, depth: u32) -> (r: Option<String>)
    ensures
        r is Some == p.text(depth as nat) is Some,
        r is Some ==> r->0@ == p.text(depth as nat)->0,
    decreases depth,
{
    match p {
        Payload::Text(s) => Some(s.clone()),
        Payload::Boxed(inner) => {
            if depth == 0 {
                None
            } else {
                find_text(inner, depth - 1)
            }
        },
        Payload::Other => None,
    }
}

/// The message in a payload.
pub fn extract_panic_msg(payload: &Payload) -> (msg: String)
    ensures
        msg@ == payload.message(),
{
    match find_text(payload, MAX_DEPTH) {
        Some(s) => s,
        None => "(unknown panic payload)".to_owned(),
    }
}

/// Who is told of panics: nobody but the user, or a handler.
pub struct PanicHandler<H> {
    pub handler: Option<H>,
}

/// What is done about a panic.
pub enum PanicAction<H> {
    /// The handler is called with the payload.
    Call(H),
    /// The text is written for the user.
    Print(String),
}

impl<H> PanicHandler<H> {
    /// No handler is set.
    pub fn new() -> (p: PanicHandler<H>)
        ensures
            p.handler is None,
    {
        PanicHandler { handler: None }
    }
}

/// Sets the handler of panics, in place of the one set before.
pub fn set_panic_handler<H>(slot: &mut PanicHandler<H>, f: H)
    ensures
        final(slot).handler == Some(f),
{
    slot.handler = Some(f);
}

/// The text for the user when a goroutine panicked.
pub open spec fn panic_report(payload: Payload) -> Seq<char> {
    "goroutine panicked: "@ + payload.message()
}

fn report(payload: &Payload) -> (s: String)
    ensures
        s@ == panic_report(*payload),
{
    let mut s: String = "goroutine panicked: ".to_owned();
    let msg: String = extract_panic_msg(payload);
    s.append(msg.as_str());
    s
}

/// Decides what is done about the panic of a goroutine.
pub fn handle_goroutine_panic<H: Copy>(slot: &PanicHandler<H>, payload: &Payload) -> (a: PanicAction<
    H,
>)
    ensures
        slot.handler matches Some(h) ==> a == PanicAction::Call(h),
        slot.handler is None ==> (a matches PanicAction::Print(s) && s@ == panic_report(*payload)),
{
    match slot.handler {
        Some(h) => PanicAction::Call(h),
        None => PanicAction::Print(report(payload)),
    }
}

/// What running a program's first goroutine comes to, given what it left behind:
/// its value, or the text with which the caller panics.
pub fn run_result<R>(slot: Option<Result<R, Payload>>) -> (r: Result<R, String>)
    ensures
        match slot {
            Some(Ok(v)) => r == Ok::<R, String>(v),
            Some(Err(payload)) => r is Err && r->Err_0@ == panic_report(payload),
            None => r is Err && r->Err_0@
                == "go_lib::run: first goroutine exited without storing a result"@,
        },
{
    match slot {
        Some(Ok(v)) => Ok(v),
        Some(Err(payload)) => Err(report(&payload)),
        None => Err(
            "go_lib::run: first goroutine exited without storing a result".to_owned(),
        ),
    }
}

/// A payload in `n` boxes.
pub open spec fn boxed(p: Payload, n: nat) -> Payload
    decreases n,
{
    if n == 0 {
        p
    } else {
        Payload::Boxed(Box::new(boxed(p, (n - 1) as nat)))
    }
}

proof fn lemma_boxed_text(s: String, n: nat, depth: nat)
    ensures
        boxed(Payload::Text(s), n).text(depth) == (if n <= depth {
            Some(s@)
        } else {
            None
        }),
    decreases n,
{
    if n > 0 && depth > 0 {
        lemma_boxed_text(s, (n - 1) as nat, (depth - 1) as nat);
    }
}

/// A text in up to `MAX_DEPTH` boxes is found, and one that lies deeper is not.
pub proof fn boxes_are_opened_so_deep(s: String, n: nat)
    ensures
        boxed(Payload::Text(s), n).message() == (if n <= MAX_DEPTH {
            s@
        } else {
            "(unknown panic payload)"@
        }),
{
    lemma_boxed_text(s, n, 4);
}

/// Whoever reads of a panic reads its text, however often it was raised again up
/// to four times; of a payload that holds none, that it is unknown.
pub proof fn a_report_says_what_was_said(s: String, n: nat)
    ensures
        n <= 4 ==> panic_report(boxed(Payload::Text(s), n)) == "goroutine panicked: "@ + s@,
        n > 4 ==> panic_report(boxed(Payload::Text(s), n)) == "goroutine panicked: "@
            + "(unknown panic payload)"@,
        panic_report(boxed(Payload::Other, n)) == "goroutine panicked: "@
            + "(unknown panic payload)"@,
{
    lemma_boxed_text(s, n, 4);
    lemma_boxed_other(n, 4);
}

proof fn lemma_boxed_other(n: nat, depth: nat)
    ensures
        boxed(Payload::Other, n).text(depth) is None,
    decreases n,
{
    if n > 0 && depth > 0 {
        lemma_boxed_other((n - 1) as nat, (depth - 1) as nat);
    }
}

} // verus!
