//! What the kernel keeps of a user task that is not running.

use crate::bytes::{copy_into, le64, le64_bytes, to_le64};
use crate::ring3::programs::EntryFrame;
use vstd::prelude::*;

verus! {

/// A kernel stack that is laid out to be switched to: where it is at, and its words from
/// there on.
#[derive(Debug)]
pub struct KernelStack {
    pub sp: u64,
    pub words: Vec<u64>,
}

/// The words of such a stack: six registers, all zero, where to return to, and the frame
/// that enters user code.
pub open spec fn stack_words(trampoline: u64, frame: EntryFrame) -> Seq<u64> {
    seq![
        0u64,
        0,
        0,
        0,
        0,
        0,
        trampoline,
        frame.rip,
        frame.cs,
        frame.rflags,
        frame.rsp,
        frame.ss,
    ]
}

impl KernelStack {
    /// The stack below `top`, laid out to enter user code with this frame.
    pub open spec fn prepared(self, top: u64, trampoline: u64, frame: EntryFrame) -> bool {
        &&& self.sp == top - top % 16 - 8 - 96
        &&& self.words@ == stack_words(trampoline, frame)
    }
}

/// Lays out a kernel stack so that the first switch to it enters user code. What is
/// returned to is to do no more than enter user code with the frame that it finds.
pub fn prepare_ring3_initial_stack(kernel_stack_top: u64, trampoline: u64, frame: EntryFrame) -> (r:
    KernelStack)
    requires
        kernel_stack_top >= 120,
    ensures
        r.prepared(kernel_stack_top, trampoline, frame),
{
    let mut words: Vec<u64> = Vec::new();
    words.push(0);
    words.push(0);
    words.push(0);
    words.push(0);
    words.push(0);
    words.push(0);
    words.push(trampoline);
    words.push(frame.rip);
    words.push(frame.cs);
    words.push(frame.rflags);
    words.push(frame.rsp);
    words.push(frame.ss);
    assert(words@ =~= stack_words(trampoline, frame));
    KernelStack { sp: kernel_stack_top - kernel_stack_top % 16 - 8 - 96, words }
}

/// The registers that a switch of stacks keeps.
#[derive(Debug, Clone, Copy, PartialEq, Eq, Structural)]
pub struct KeptRegisters {
    pub r15: u64,
    pub r14: u64,
    pub r13: u64,
    pub r12: u64,
    pub rbx: u64,
    pub rbp: u64,
}

/// What a switch to a stack with these words takes off it: the registers, in this order,
/// and where to return to; and what is left for the entry of user code.
pub open spec fn switched_to(words: Seq<u64>) -> (KeptRegisters, u64, EntryFrame) {
    (
        KeptRegisters {
            r15: words[0],
            r14: words[1],
            r13: words[2],
            r12: words[3],
            rbx: words[4],
            rbp: words[5],
        },
        words[6],
        EntryFrame {
            rip: words[7],
            cs: words[8],
            rflags: words[9],
            rsp: words[10],
            ss: words[11],
        },
    )
}

/// What the entry of a task that lets others run puts on the stack: where to return to,
/// and the registers, below the frame that the processor put there.
pub open spec fn yielded_words(kept: KeptRegisters, trampoline: u64, frame: EntryFrame) -> Seq<u64> {
    seq![
        kept.r15,
        kept.r14,
        kept.r13,
        kept.r12,
        kept.rbx,
        kept.rbp,
        trampoline,
        frame.rip,
        frame.cs,
        frame.rflags,
        frame.rsp,
        frame.ss,
    ]
}

/// A switch to a stack that was laid out enters user code with the frame, through the
/// place that does so, with all kept registers zero.
pub proof fn first_switch_enters_user_code(trampoline: u64, frame: EntryFrame)
    ensures
        switched_to(stack_words(trampoline, frame)) == (
            KeptRegisters { r15: 0, r14: 0, r13: 0, r12: 0, rbx: 0, rbp: 0 },
            trampoline,
            frame,
        ),
{
}

/// A switch to what a task left when it let others run goes on where the task was, with
/// the registers that it had.
pub proof fn later_switch_goes_on(kept: KeptRegisters, trampoline: u64, frame: EntryFrame)
    ensures
        switched_to(yielded_words(kept, trampoline, frame)) == (kept, trampoline, frame),
{
}

/// The bytes of what a task leaves when it lets others run.
pub const PARKED_BYTES: u64 = 96;

/// Two tasks that take turns: where each is parked, and which one runs.
#[derive(Debug, Clone, Copy, PartialEq, Eq, Structural)]
pub struct Turns {
    pub parked0: u64,
    pub parked1: u64,
    pub current: usize,
}

impl Turns {
    pub open spec fn wf(self) -> bool {
        self.current == 0 || self.current == 1
    }

    /// Where a task is parked.
    pub open spec fn parked(self, task: usize) -> u64 {
        if task == 0 {
            self.parked0
        } else {
            self.parked1
        }
    }

    /// The task that does not run.
    pub open spec fn other(self) -> usize {
        (1 - self.current) as usize
    }
}

/// The task that runs lets the other one run. Where what it left is copied to, and the
/// stack to switch to.
pub fn ring3_coop_yield_helper(turns: &mut Turns) -> (r: (u64, u64))
    requires
        old(turns).wf(),
    ensures
        r.0 == old(turns).parked(old(turns).current),
        r.1 == old(turns).parked(old(turns).other()),
        *final(turns) == (Turns { current: old(turns).other(), ..*old(turns) }),
        final(turns).wf(),
{
    let (from, to): (u64, u64) = if turns.current == 0 {
        (turns.parked0, turns.parked1)
    } else {
        (turns.parked1, turns.parked0)
    };
    turns.current = 1 - turns.current;
    (from, to)
}

/// Memory by address.
pub type Memory = Map<int, u8>;

/// Memory after the words that a task left were copied to where it is parked.
pub open spec fn parked_at(m: Memory, at: u64, left: Seq<u8>) -> Memory {
    Map::new(
        |a: int| m.dom().contains(a) || at <= a < at + left.len(),
        |a: int|
            if at <= a < at + left.len() {
                left[a - at]
            } else {
                m[a]
            },
    )
}

/// The bytes at an address.
pub open spec fn bytes_at(m: Memory, at: u64, n: int) -> Seq<u8> {
    Seq::new(n as nat, |i: int| m[at + i])
}

/// Two turns later a task finds what it left, whatever the other one left in between, as
/// long as the two are parked apart.
pub proof fn turn_comes_back(turns: Turns, m: Memory, left: Seq<u8>, others: Seq<u8>)
    requires
        turns.wf(),
        left.len() == PARKED_BYTES,
        others.len() == PARKED_BYTES,
        turns.parked0 + PARKED_BYTES <= turns.parked1 || turns.parked1 + PARKED_BYTES
            <= turns.parked0,
    ensures
        ({
            let mine = turns.parked(turns.current);
            let after = parked_at(
                parked_at(m, mine, left),
                turns.parked(turns.other()),
                others,
            );
            bytes_at(after, mine, PARKED_BYTES as int) == left
        }),
{
    let mine = turns.parked(turns.current);
    let after = parked_at(parked_at(m, mine, left), turns.parked(turns.other()), others);
    assert(bytes_at(after, mine, PARKED_BYTES as int) =~= left);
}

/// What the timer's entry takes up of a task that has not run yet: fifteen registers, all
/// zero, and the frame that enters user code.
pub open spec fn timer_context(frame: EntryFrame) -> Seq<u8> {
    Seq::new(120, |i: int| 0u8) + le64_bytes(frame.rip) + le64_bytes(frame.cs) + le64_bytes(
        frame.rflags,
    ) + le64_bytes(frame.rsp) + le64_bytes(frame.ss)
}

pub fn prepare_ring3_mt_task_ctx(frame: EntryFrame) -> (context: [u8; 160])
    ensures
        context@ == timer_context(frame),
{
    let mut context: [u8; 160] = [0;160];
    copy_into(&mut context, 120, &to_le64(frame.rip));
    copy_into(&mut context, 128, &to_le64(frame.cs));
    copy_into(&mut context, 136, &to_le64(frame.rflags));
    copy_into(&mut context, 144, &to_le64(frame.rsp));
    copy_into(&mut context, 152, &to_le64(frame.ss));
    assert(context@ =~= timer_context(frame));
    context
}

proof fn context_word(c: Seq<u8>, at: int, x: u64)
    requires
        c.len() == 160,
        0 <= at <= 152,
        c.subrange(at, at + 8) == le64_bytes(x),
    ensures
        le64(c, at) == x,
{
    let b = le64_bytes(x);
    let s = c.subrange(at, at + 8);
    assert(forall|i: int| 0 <= i < 8 ==> #[trigger] s[i] == c[at + i]);
    assert(c[at] == b[0] && c[at + 1] == b[1] && c[at + 2] == b[2] && c[at + 3] == b[3]) by {
        assert(s[0] == c[at] && s[1] == c[at + 1] && s[2] == c[at + 2] && s[3] == c[at + 3]);
    }
    assert(c[at + 4] == b[4] && c[at + 5] == b[5] && c[at + 6] == b[6] && c[at + 7] == b[7]) by {
        assert(s[4] == c[at + 4] && s[5] == c[at + 5] && s[6] == c[at + 6] && s[7] == c[at + 7]);
    }
    crate::bytes::le32_round_trip((x % 4294967296) as u32);
    crate::bytes::le32_round_trip((x / 4294967296) as u32);
}

/// The timer's entry finds the frame where it expects it, behind fifteen words.
pub proof fn context_holds_frame(frame: EntryFrame)
    ensures
        ({
            let c = timer_context(frame);
            &&& c.len() == 160
            &&& le64(c, 120) == frame.rip
            &&& le64(c, 128) == frame.cs
            &&& le64(c, 136) == frame.rflags
            &&& le64(c, 144) == frame.rsp
            &&& le64(c, 152) == frame.ss
        }),
{
    let c = timer_context(frame);
    assert(c.subrange(120, 128) =~= le64_bytes(frame.rip));
    assert(c.subrange(128, 136) =~= le64_bytes(frame.cs));
    assert(c.subrange(136, 144) =~= le64_bytes(frame.rflags));
    assert(c.subrange(144, 152) =~= le64_bytes(frame.rsp));
    assert(c.subrange(152, 160) =~= le64_bytes(frame.ss));
    context_word(c, 120, frame.rip);
    context_word(c, 128, frame.cs);
    context_word(c, 136, frame.rflags);
    context_word(c, 144, frame.rsp);
    context_word(c, 152, frame.ss);
}

/// A stack that is laid out lies below its top, with its twelve words ending 8 bytes below a multiple of
/// 16.
pub proof fn laid_out_stack_is_in_place(s: KernelStack, top: u64, trampoline: u64, frame: EntryFrame)
    requires
        top >= 120,
        s.prepared(top, trampoline, frame),
    ensures
        s.words@.len() == 12,
        s.sp + 8 * s.words@.len() + 8 <= top < s.sp + 8 * s.words@.len() + 24,
        (s.sp + 8 * s.words@.len() + 8) % 16 == 0,
        switched_to(s.words@).1 == trampoline,
        switched_to(s.words@).2 == frame,
{
}

/// Each of the two tasks has a place of its own, the one that does not run is the other one, and two
/// turns later the same one runs.
pub proof fn tasks_take_turns(first: u64, second: u64, current: usize)
    requires
        current < 2,
    ensures
        ({
            let turns = Turns { parked0: first, parked1: second, current };
            let next = Turns { current: turns.other(), ..turns };
            &&& turns.wf()
            &&& turns.parked(0) == first
            &&& turns.parked(1) == second
            &&& turns.other() < 2
            &&& turns.other() != current
            &&& next.other() == current
            &&& next.wf()
        }),
{
}

/// A task that has not run yet begins with all its registers zero.
pub proof fn registers_begin_with_zero(frame: EntryFrame, i: int)
    requires
        0 <= i < 120,
    ensures
        timer_context(frame)[i] == 0,
{
}

} // verus!
