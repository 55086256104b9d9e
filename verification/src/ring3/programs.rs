//! The programs, and how each is entered.

use crate::bytes::{append_bytes, le32_bytes, le64_bytes, to_le32, to_le64};
use crate::gdt::Ring3Info;
use crate::memory::user_page::USER_TEST_PAGE_ADDR;
use vstd::prelude::*;

verus! {

/// An instruction that user code may not run.
pub const RING3_TEST_OPCODE: u8 = 0xFA;

/// The flags that user code starts with: interrupts on.
pub const RING3_TEST_RFLAGS: u64 = 0x202;

/// The number of the system call that multiplies a matrix.
pub const SYS_TENSOR_EVAL: u64 = 4;

/// The end of the page that user code is tested in.
pub const USER_TEST_PAGE_END: u64 = 0x5555_5555_1000;

/// What the processor takes up when it goes to user code: where to go on, with which
/// segments and flags, and on which stack.
#[derive(Debug, Clone, Copy, PartialEq, Eq, Structural)]
pub struct EntryFrame {
    pub rip: u64,
    pub cs: u64,
    pub rflags: u64,
    pub rsp: u64,
    pub ss: u64,
}

/// The frame that enters user code at `rip`, on the stack that ends at `rsp`.
pub open spec fn user_frame(info: Ring3Info, rip: u64, rsp: u64) -> EntryFrame {
    EntryFrame {
        rip,
        cs: info.user_code_selector as u64,
        rflags: RING3_TEST_RFLAGS,
        rsp,
        ss: info.user_data_selector as u64,
    }
}

pub fn enter_frame(info: &Ring3Info, rip: u64, rsp: u64) -> (f: EntryFrame)
    ensures
        f == user_frame(*info, rip, rsp),
{
    EntryFrame {
        rip,
        cs: info.user_code_selector as u64,
        rflags: RING3_TEST_RFLAGS,
        rsp,
        ss: info.user_data_selector as u64,
    }
}

/// A program, where it goes, and how it is entered.
#[derive(Debug)]
pub struct UserProgram {
    pub at: u64,
    pub code: Vec<u8>,
    pub frame: EntryFrame,
}

impl UserProgram {
    /// The program is this code in the page for tests, entered at its beginning, on the
    /// stack at the page's end.
    pub open spec fn runs(self, info: Ring3Info, code: Seq<u8>) -> bool {
        &&& self.at == USER_TEST_PAGE_ADDR
        &&& self.code@ == code
        &&& self.frame == user_frame(info, USER_TEST_PAGE_ADDR, USER_TEST_PAGE_END)
    }
}

fn program(info: &Ring3Info, code: Vec<u8>) -> (p: UserProgram)
    ensures
        p.runs(*info, code@),
{
    UserProgram {
        at: USER_TEST_PAGE_ADDR,
        code,
        frame: enter_frame(info, USER_TEST_PAGE_ADDR, USER_TEST_PAGE_END),
    }
}

/// One instruction, which user code may not run.
pub open spec fn fault_code() -> Seq<u8> {
    seq![RING3_TEST_OPCODE]
}

/// A program that is stopped at its first instruction.
pub fn run_ring3_test(info: &Ring3Info) -> (p: UserProgram)
    ensures
        p.runs(*info, fault_code()),
{
    let mut code: Vec<u8> = Vec::new();
    code.push(RING3_TEST_OPCODE);
    assert(code@ =~= fault_code());
    program(info, code)
}

/// A system call to print, and an instruction that user code may not run.
pub open spec fn syscall_code() -> Seq<u8> {
    seq![0xB8u8, 0x01, 0x00, 0x00, 0x00, 0xCD, 0x80, 0xFA]
}

/// A program that makes a system call, goes on, and is stopped.
pub fn run_ring3_syscall_test(info: &Ring3Info) -> (p: UserProgram)
    ensures
        p.runs(*info, syscall_code()),
{
    let mut code: Vec<u8> = Vec::new();
    append_bytes(&mut code, &[0xB8, 0x01, 0x00, 0x00, 0x00, 0xCD, 0x80, 0xFA]);
    assert(code@ =~= syscall_code());
    program(info, code)
}

/// A system call to print, and the end with the code 42.
pub open spec fn exit_code_program() -> Seq<u8> {
    seq![
        0xB8u8,
        0x01,
        0x00,
        0x00,
        0x00,
        0xCD,
        0x80,
        0xB8,
        0x2A,
        0x00,
        0x00,
        0x00,
        0xCD,
        0x81,
        0xFA,
    ]
}

/// A program that makes a system call and ends by itself.
pub fn run_ring3_exit_test(info: &Ring3Info) -> (p: UserProgram)
    ensures
        p.runs(*info, exit_code_program()),
{
    let mut code: Vec<u8> = Vec::new();
    append_bytes(
        &mut code,
        &[
            0xB8, 0x01, 0x00, 0x00, 0x00, 0xCD, 0x80, 0xB8, 0x2A, 0x00, 0x00, 0x00, 0xCD, 0x81,
            0xFA,
        ],
    );
    assert(code@ =~= exit_code_program());
    program(info, code)
}

/// The arguments of the system call that multiplies a matrix: four runs of numbers, each
/// by its address and how many there are, and the two dimensions.
#[derive(Debug, Clone, Copy, PartialEq, Eq, Structural)]
pub struct TensorEvalArgs {
    pub weights: u64,
    pub weights_len: u64,
    pub inputs: u64,
    pub inputs_len: u64,
    pub bias: u64,
    pub bias_len: u64,
    pub outputs: u64,
    pub outputs_len: u64,
    pub in_dim: u64,
    pub out_dim: u64,
}

/// Where these arguments are put.
pub const TENSOR_ARGS_ADDR: u64 = 0x5555_5555_0100;

/// A system call with one argument, and the end with what it gave back.
pub open spec fn tensor_code(number: u64, args: u64) -> Seq<u8> {
    seq![0x48u8, 0xB8] + le64_bytes(number) + seq![0x48u8, 0xBF] + le64_bytes(args) + seq![
        0xCDu8,
        0x80,
        0xCD,
        0x81,
    ]
}

fn build_tensor_code(number: u64, args: u64) -> (code: Vec<u8>)
    ensures
        code@ == tensor_code(number, args),
{
    let mut code: Vec<u8> = Vec::new();
    append_bytes(&mut code, &[0x48, 0xB8]);
    append_bytes(&mut code, &to_le64(number));
    append_bytes(&mut code, &[0x48, 0xBF]);
    append_bytes(&mut code, &to_le64(args));
    append_bytes(&mut code, &[0xCD, 0x80, 0xCD, 0x81]);
    assert(code@ =~= tensor_code(number, args));
    code
}

/// A program that makes the system call with addresses of the kernel's own memory, and the
/// arguments.
pub fn run_ring3_pointer_reject_test(info: &Ring3Info, kernel_only: u64) -> (r: (
    UserProgram,
    TensorEvalArgs,
))
    ensures
        r.0.runs(*info, tensor_code(SYS_TENSOR_EVAL, TENSOR_ARGS_ADDR)),
        r.1 == (TensorEvalArgs {
            weights: kernel_only,
            weights_len: 1,
            inputs: kernel_only,
            inputs_len: 1,
            bias: kernel_only,
            bias_len: 1,
            outputs: kernel_only,
            outputs_len: 1,
            in_dim: 1,
            out_dim: 1,
        }),
{
    let args = TensorEvalArgs {
        weights: kernel_only,
        weights_len: 1,
        inputs: kernel_only,
        inputs_len: 1,
        bias: kernel_only,
        bias_len: 1,
        outputs: kernel_only,
        outputs_len: 1,
        in_dim: 1,
        out_dim: 1,
    };
    (program(info, build_tensor_code(SYS_TENSOR_EVAL, TENSOR_ARGS_ADDR)), args)
}

/// An address four bytes before the end of the page.
pub const OVERRUNNING_ADDR: u64 = 0x5555_5555_0FFC;

/// A program that makes the system call with numbers that begin in its page and end behind
/// it, and the arguments.
pub fn run_ring3_slice_overrun_test(info: &Ring3Info) -> (r: (UserProgram, TensorEvalArgs))
    ensures
        r.0.runs(*info, tensor_code(SYS_TENSOR_EVAL, TENSOR_ARGS_ADDR)),
        r.1 == (TensorEvalArgs {
            weights: OVERRUNNING_ADDR,
            weights_len: 2,
            inputs: 0,
            inputs_len: 0,
            bias: 0,
            bias_len: 0,
            outputs: 0,
            outputs_len: 0,
            in_dim: 1,
            out_dim: 1,
        }),
{
    let args = TensorEvalArgs {
        weights: OVERRUNNING_ADDR,
        weights_len: 2,
        inputs: 0,
        inputs_len: 0,
        bias: 0,
        bias_len: 0,
        outputs: 0,
        outputs_len: 0,
        in_dim: 1,
        out_dim: 1,
    };
    (program(info, build_tensor_code(SYS_TENSOR_EVAL, TENSOR_ARGS_ADDR)), args)
}

/// How often a loop runs that the timer is to interrupt.
pub const LOOP_COUNT: u32 = 150_000_000;

/// A loop, and the end with a code.
pub open spec fn spin_code(loops: u32, exit: u32) -> Seq<u8> {
    seq![0xB9u8] + le32_bytes(loops) + seq![0xFFu8, 0xC9, 0x75, 0xFC, 0xB8] + le32_bytes(exit)
        + seq![0xCDu8, 0x81]
}

fn build_spin_code(loops: u32, exit: u32) -> (code: Vec<u8>)
    ensures
        code@ == spin_code(loops, exit),
{
    let mut code: Vec<u8> = Vec::new();
    append_bytes(&mut code, &[0xB9]);
    append_bytes(&mut code, &to_le32(loops));
    append_bytes(&mut code, &[0xFF, 0xC9, 0x75, 0xFC, 0xB8]);
    append_bytes(&mut code, &to_le32(exit));
    append_bytes(&mut code, &[0xCD, 0x81]);
    assert(code@ =~= spin_code(loops, exit));
    code
}

/// The code that the loop ends with, where the timer is watched.
pub const TIMER_TEST_EXIT: u32 = 77;

/// A program that runs long enough for the timer to interrupt it.
pub fn run_ring3_timer_tick_test(info: &Ring3Info) -> (p: UserProgram)
    ensures
        p.runs(*info, spin_code(LOOP_COUNT, TIMER_TEST_EXIT)),
{
    program(info, build_spin_code(LOOP_COUNT, TIMER_TEST_EXIT))
}

/// Whether the timer came while user code was running, given the counts before and after.
pub fn ticked_during_ring3(before: u64, after: u64) -> (r: bool)
    ensures
        r == (after > before),
{
    after > before
}

/// The code that the loop ends with, where kernel tasks wait for their turn.
pub const CONCURRENT_TEST_EXIT: u32 = 88;

/// The same while kernel tasks are waiting for their turn.
pub fn run_ring3_concurrent_preemption_test(info: &Ring3Info) -> (p: UserProgram)
    ensures
        p.runs(*info, spin_code(LOOP_COUNT, CONCURRENT_TEST_EXIT)),
{
    program(info, build_spin_code(LOOP_COUNT, CONCURRENT_TEST_EXIT))
}

/// Five numbers in five registers, a loop in a sixth, and the five put together into the
/// first by exclusive or; then two more bytes.
pub open spec fn xor_code(a: u32, c: u32, d: u32, si: u32, di: u32, loops: u32, last: Seq<u8>) -> Seq<
    u8,
> {
    seq![0xB8u8] + le32_bytes(a) + seq![0xB9u8] + le32_bytes(c) + seq![0xBAu8] + le32_bytes(d)
        + seq![0xBEu8] + le32_bytes(si) + seq![0xBFu8] + le32_bytes(di) + seq![0x41u8, 0xB8]
        + le32_bytes(loops) + seq![
        0x41u8,
        0xFF,
        0xC8,
        0x75,
        0xFB,
        0x31,
        0xC8,
        0x31,
        0xD0,
        0x31,
        0xF0,
        0x31,
        0xF8,
    ] + last
}

fn build_xor_code(a: u32, c: u32, d: u32, si: u32, di: u32, loops: u32, last: [u8; 2]) -> (code:
    Vec<u8>)
    ensures
        code@ == xor_code(a, c, d, si, di, loops, last@),
{
    let mut code: Vec<u8> = Vec::new();
    append_bytes(&mut code, &[0xB8]);
    append_bytes(&mut code, &to_le32(a));
    append_bytes(&mut code, &[0xB9]);
    append_bytes(&mut code, &to_le32(c));
    append_bytes(&mut code, &[0xBA]);
    append_bytes(&mut code, &to_le32(d));
    append_bytes(&mut code, &[0xBE]);
    append_bytes(&mut code, &to_le32(si));
    append_bytes(&mut code, &[0xBF]);
    append_bytes(&mut code, &to_le32(di));
    append_bytes(&mut code, &[0x41, 0xB8]);
    append_bytes(&mut code, &to_le32(loops));
    append_bytes(
        &mut code,
        &[0x41, 0xFF, 0xC8, 0x75, 0xFB, 0x31, 0xC8, 0x31, 0xD0, 0x31, 0xF0, 0x31, 0xF8],
    );
    append_bytes(&mut code, &last);
    assert(code@ =~= xor_code(a, c, d, si, di, loops, last@));
    code
}

/// The program whose registers the timer must not change.
pub open spec fn preempt_code() -> Seq<u8> {
    xor_code(
        0x1111_1111,
        0x2222_2222,
        0x3333_3333,
        0x4444_4444,
        0x5555_5555,
        LOOP_COUNT,
        seq![0xCDu8, 0x81],
    )
}

/// A program that ends with a number that comes out right only if no register was changed
/// while the timer interrupted it.
pub fn run_ring3_full_preempt_test(info: &Ring3Info) -> (p: UserProgram)
    ensures
        p.runs(*info, preempt_code()),
{
    let last: [u8; 2] = [0xCD, 0x81];
    assert(last@ =~= seq![0xCDu8, 0x81]);
    program(
        info,
        build_xor_code(
            0x1111_1111,
            0x2222_2222,
            0x3333_3333,
            0x4444_4444,
            0x5555_5555,
            LOOP_COUNT,
            last,
        ),
    )
}

/// How often the loop of the second of two tasks runs: it is done long before the first.
pub const TASK1_LOOP_COUNT: u32 = 10_000_000;

/// The first of two tasks that the timer switches: it ends by itself.
pub open spec fn mt_task0_code() -> Seq<u8> {
    xor_code(
        0x1000_0000,
        0x1000_0001,
        0x1000_0002,
        0x1000_0003,
        0x1000_0004,
        LOOP_COUNT,
        seq![0xCDu8, 0x81],
    )
}

/// The second: it stays where it is once it is done.
pub open spec fn mt_task1_code() -> Seq<u8> {
    xor_code(
        0x2000_0000,
        0x2000_0001,
        0x2000_0002,
        0x2000_0003,
        0x2000_0004,
        TASK1_LOOP_COUNT,
        seq![0xEBu8, 0xFE],
    )
}

/// Where the second task goes.
pub const MT_TASK1_ADDR: u64 = 0x5555_5555_0080;

/// Where the stacks of the two tasks end.
pub const TASK0_STACK_TOP: u64 = 0x5555_5555_0800;

pub const TASK1_STACK_TOP: u64 = 0x5555_5555_0C00;

fn build_mt_task0() -> (code: Vec<u8>)
    ensures
        code@ == mt_task0_code(),
{
    let last: [u8; 2] = [0xCD, 0x81];
    assert(last@ =~= seq![0xCDu8, 0x81]);
    build_xor_code(
        0x1000_0000,
        0x1000_0001,
        0x1000_0002,
        0x1000_0003,
        0x1000_0004,
        LOOP_COUNT,
        last,
    )
}

fn build_mt_task1() -> (code: Vec<u8>)
    ensures
        code@ == mt_task1_code(),
{
    let last: [u8; 2] = [0xEB, 0xFE];
    assert(last@ =~= seq![0xEBu8, 0xFE]);
    build_xor_code(
        0x2000_0000,
        0x2000_0001,
        0x2000_0002,
        0x2000_0003,
        0x2000_0004,
        TASK1_LOOP_COUNT,
        last,
    )
}

/// Two tasks that the timer switches, and the context that the second begins with.
#[derive(Debug)]
pub struct MtTest {
    pub task0: UserProgram,
    pub task1: UserProgram,
    pub task1_context: [u8; 160],
}

/// Two programs that the timer is to switch between.
pub fn run_ring3_mt_test(info: &Ring3Info) -> (t: MtTest)
    ensures
        t.task0.at == USER_TEST_PAGE_ADDR,
        t.task0.code@ == mt_task0_code(),
        t.task0.frame == user_frame(*info, USER_TEST_PAGE_ADDR, TASK0_STACK_TOP),
        t.task1.at == MT_TASK1_ADDR,
        t.task1.code@ == mt_task1_code(),
        t.task1.frame == user_frame(*info, MT_TASK1_ADDR, TASK1_STACK_TOP),
        t.task1_context@ == crate::ring3::tasks::timer_context(t.task1.frame),
{
    let frame1: EntryFrame = enter_frame(info, MT_TASK1_ADDR, TASK1_STACK_TOP);
    MtTest {
        task0: UserProgram {
            at: USER_TEST_PAGE_ADDR,
            code: build_mt_task0(),
            frame: enter_frame(info, USER_TEST_PAGE_ADDR, TASK0_STACK_TOP),
        },
        task1: UserProgram { at: MT_TASK1_ADDR, code: build_mt_task1(), frame: frame1 },
        task1_context: crate::ring3::tasks::prepare_ring3_mt_task_ctx(frame1),
    }
}

/// Adds the numbers from 5 down to 1, and ends with the sum.
pub open spec fn sum_code() -> Seq<u8> {
    seq![
        0xB9u8,
        0x05,
        0x00,
        0x00,
        0x00,
        0xB8,
        0x00,
        0x00,
        0x00,
        0x00,
        0x01,
        0xC8,
        0xFF,
        0xC9,
        0x75,
        0xFA,
        0xCD,
        0x82,
    ]
}

/// A task that is entered by a switch of stacks, and the stack that is switched to.
pub fn run_ring3_switchto_bootstrap_test(
    info: &Ring3Info,
    kernel_stack_top: u64,
    trampoline: u64,
) -> (r: (UserProgram, crate::ring3::tasks::KernelStack))
    requires
        kernel_stack_top >= 120,
    ensures
        r.0.runs(*info, sum_code()),
        r.1.prepared(kernel_stack_top, trampoline, r.0.frame),
{
    let mut code: Vec<u8> = Vec::new();
    append_bytes(
        &mut code,
        &[
            0xB9, 0x05, 0x00, 0x00, 0x00, 0xB8, 0x00, 0x00, 0x00, 0x00, 0x01, 0xC8, 0xFF, 0xC9,
            0x75, 0xFA, 0xCD, 0x82,
        ],
    );
    assert(code@ =~= sum_code());
    let p = program(info, code);
    let stack = crate::ring3::tasks::prepare_ring3_initial_stack(
        kernel_stack_top,
        trampoline,
        p.frame,
    );
    (p, stack)
}

/// Where two tasks that take turns leave their letters.
pub const SIGNATURE_ADDR: u64 = 0x5555_5555_0258;

/// Where the second of them is entered.
pub const COOP_TASK1_ADDR: u64 = 0x5555_5555_0010;

/// The code of the two tasks: each begins with its own number, and both go on in the same
/// place. A letter is left, another task is let run, another letter is left, and the task
/// ends with the code 42.
pub open spec fn coop_code(signature: u64) -> Seq<u8> {
    seq![0x49u8, 0xBC] + le64_bytes(signature) + seq![0xB3u8, 0x00, 0xEB, 0x12, 0x00, 0x00] + seq![
        0x49u8,
        0xBC,
    ] + le64_bytes(signature) + seq![0xB3u8, 0x01, 0xEB, 0x02, 0x00, 0x00] + seq![
        0x8Au8,
        0xC3,
        0x04,
        0x41,
        0x41,
        0x88,
        0x04,
        0x1C,
        0xCD,
        0x83,
        0x8A,
        0xC3,
        0x04,
        0x43,
        0x41,
        0x88,
        0x44,
        0x24,
        0x02,
        0xB8,
        0x2A,
        0x00,
        0x00,
        0x00,
        0xCD,
        0x82,
    ]
}

fn build_coop_code(signature: u64) -> (code: Vec<u8>)
    ensures
        code@ == coop_code(signature),
{
    let mut code: Vec<u8> = Vec::new();
    append_bytes(&mut code, &[0x49, 0xBC]);
    append_bytes(&mut code, &to_le64(signature));
    append_bytes(&mut code, &[0xB3, 0x00, 0xEB, 0x12, 0x00, 0x00]);
    append_bytes(&mut code, &[0x49, 0xBC]);
    append_bytes(&mut code, &to_le64(signature));
    append_bytes(&mut code, &[0xB3, 0x01, 0xEB, 0x02, 0x00, 0x00]);
    append_bytes(
        &mut code,
        &[
            0x8A, 0xC3, 0x04, 0x41, 0x41, 0x88, 0x04, 0x1C, 0xCD, 0x83, 0x8A, 0xC3, 0x04, 0x43,
            0x41, 0x88, 0x44, 0x24, 0x02, 0xB8, 0x2A, 0x00, 0x00, 0x00, 0xCD, 0x82,
        ],
    );
    assert(code@ =~= coop_code(signature));
    code
}

/// Two tasks that take turns: their code, the frame of each, the stack that each is first
/// switched to, and who runs.
#[derive(Debug)]
pub struct CoopTest {
    pub at: u64,
    pub code: Vec<u8>,
    pub frame0: EntryFrame,
    pub frame1: EntryFrame,
    pub stack0: crate::ring3::tasks::KernelStack,
    pub stack1: crate::ring3::tasks::KernelStack,
    pub turns: crate::ring3::tasks::Turns,
}

/// Two tasks that are to take turns, given where their kernel stacks end.
pub fn run_ring3_cooperative_test(
    info: &Ring3Info,
    k0_top: u64,
    k1_top: u64,
    trampoline: u64,
) -> (t: CoopTest)
    requires
        k0_top >= 120,
        k1_top >= 120,
    ensures
        t.at == USER_TEST_PAGE_ADDR,
        t.code@ == coop_code(SIGNATURE_ADDR),
        t.frame0 == user_frame(*info, USER_TEST_PAGE_ADDR, TASK0_STACK_TOP),
        t.frame1 == user_frame(*info, COOP_TASK1_ADDR, TASK1_STACK_TOP),
        t.stack0.prepared(k0_top, trampoline, t.frame0),
        t.stack1.prepared(k1_top, trampoline, t.frame1),
        t.turns.parked0 == t.stack0.sp,
        t.turns.parked1 == t.stack1.sp,
        t.turns.current == 0,
{
    let frame0: EntryFrame = enter_frame(info, USER_TEST_PAGE_ADDR, TASK0_STACK_TOP);
    let frame1: EntryFrame = enter_frame(info, COOP_TASK1_ADDR, TASK1_STACK_TOP);
    let stack0 = crate::ring3::tasks::prepare_ring3_initial_stack(k0_top, trampoline, frame0);
    let stack1 = crate::ring3::tasks::prepare_ring3_initial_stack(k1_top, trampoline, frame1);
    let turns = crate::ring3::tasks::Turns {
        parked0: stack0.sp,
        parked1: stack1.sp,
        current: 0,
    };
    CoopTest {
        at: USER_TEST_PAGE_ADDR,
        code: build_coop_code(SIGNATURE_ADDR),
        frame0,
        frame1,
        stack0,
        stack1,
        turns,
    }
}

/// A program is entered at its first byte, in the page that it is in, with the stack at the end of that
/// page, with the segments of user code, and with interrupts on.
pub proof fn programs_are_entered_at_their_beginning(p: UserProgram, info: Ring3Info, code: Seq<u8>)
    requires
        p.runs(info, code),
    ensures
        p.code@ == code,
        p.frame.rip == p.at,
        p.at % 4096 == 0,
        p.frame.rsp == p.at + 4096,
        p.frame.cs == info.user_code_selector,
        p.frame.ss == info.user_data_selector,
        p.frame.rflags / 512 % 2 == 1,
        p.frame.rflags == 0x202,
{
}

} // verus!
