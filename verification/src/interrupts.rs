//! Interrupts: the vectors, the gates, and what is counted.

use crate::gdt::DOUBLE_FAULT_IST_INDEX;
use vstd::prelude::*;

verus! {

/// The vector of the first interrupt of the first controller: behind those of the
/// processor's own exceptions.
pub const PIC_1_OFFSET: u8 = 32;

/// The vector of the first interrupt of the second controller.
pub const PIC_2_OFFSET: u8 = 40;

/// The vector of the first disk: interrupt 14, the sixth of the second controller.
pub const ATA_PRIMARY_IRQ_VECTOR: u8 = 46;

/// The vector of system calls.
pub const SYSCALL_INT_VECTOR: u8 = 0x80;

/// The vector by which user code that was called ends.
pub const RING3_EXIT_INT_VECTOR: u8 = 0x81;

/// The vector by which a user task that was switched to ends.
pub const RING3_TASK_EXIT_INT_VECTOR: u8 = 0x82;

/// The vector by which a user task lets another run.
pub const RING3_COOP_YIELD_INT_VECTOR: u8 = 0x83;

/// The vector by which a user task that the timer switches is done.
pub const RING3_MT_TASK_DONE_INT_VECTOR: u8 = 0x84;

/// The vector by which a user task that lets others run is done.
pub const RING3_COOP_TASK_DONE_INT_VECTOR: u8 = 0x85;

/// An interrupt of the first controller.
#[derive(Debug, Clone, Copy, PartialEq, Eq, Structural)]
pub enum InterruptIndex {
    Timer,
    Keyboard,
}

/// The vector of an interrupt.
pub open spec fn vector_of(i: InterruptIndex) -> u8 {
    match i {
        InterruptIndex::Timer => PIC_1_OFFSET,
        InterruptIndex::Keyboard => 33,
    }
}

impl InterruptIndex {
    pub fn as_u8(self) -> (r: u8)
        ensures
            r == vector_of(self),
    {
        match self {
            InterruptIndex::Timer => PIC_1_OFFSET,
            InterruptIndex::Keyboard => PIC_1_OFFSET + 1,
        }
    }
}

/// What is run for a vector.
#[derive(Debug, Clone, Copy, PartialEq, Eq, Structural)]
pub enum Handler {
    DivideError,
    Breakpoint,
    InvalidOpcode,
    DoubleFault,
    GeneralProtectionFault,
    PageFault,
    Timer,
    Keyboard,
    AtaPrimary,
    Syscall,
    Ring3Exit,
    Ring3TaskExit,
    Ring3CoopYield,
    Ring3MtTaskDone,
    Ring3CoopTaskDone,
}

/// An entry of the interrupt table.
#[derive(Debug, Clone, Copy, PartialEq, Eq, Structural)]
pub struct Gate {
    pub vector: u8,
    pub handler: Handler,
    /// User code may raise this interrupt by itself.
    pub from_user: bool,
    /// The handler has a stack of its own.
    pub own_stack: Option<u16>,
}

pub open spec fn kernel_gate(vector: u8, handler: Handler) -> Gate {
    Gate { vector, handler, from_user: false, own_stack: None }
}

pub open spec fn user_gate(vector: u8, handler: Handler) -> Gate {
    Gate { vector, handler, from_user: true, own_stack: None }
}

/// The entries of the interrupt table.
pub open spec fn gates() -> Seq<Gate> {
    seq![
        kernel_gate(0, Handler::DivideError),
        kernel_gate(3, Handler::Breakpoint),
        kernel_gate(6, Handler::InvalidOpcode),
        Gate {
            vector: 8,
            handler: Handler::DoubleFault,
            from_user: false,
            own_stack: Some(DOUBLE_FAULT_IST_INDEX),
        },
        kernel_gate(13, Handler::GeneralProtectionFault),
        kernel_gate(14, Handler::PageFault),
        kernel_gate(32, Handler::Timer),
        kernel_gate(33, Handler::Keyboard),
        kernel_gate(ATA_PRIMARY_IRQ_VECTOR, Handler::AtaPrimary),
        user_gate(SYSCALL_INT_VECTOR, Handler::Syscall),
        user_gate(RING3_EXIT_INT_VECTOR, Handler::Ring3Exit),
        user_gate(RING3_TASK_EXIT_INT_VECTOR, Handler::Ring3TaskExit),
        user_gate(RING3_COOP_YIELD_INT_VECTOR, Handler::Ring3CoopYield),
        user_gate(RING3_MT_TASK_DONE_INT_VECTOR, Handler::Ring3MtTaskDone),
        user_gate(RING3_COOP_TASK_DONE_INT_VECTOR, Handler::Ring3CoopTaskDone),
    ]
}

fn gate(vector: u8, handler: Handler, from_user: bool) -> (g: Gate)
    ensures
        g == (Gate { vector, handler, from_user, own_stack: None }),
{
    Gate { vector, handler, from_user, own_stack: None }
}

/// The entries of the interrupt table.
pub fn init_idt() -> (table: Vec<Gate>)
    ensures
        table@ == gates(),
{
    let mut table: Vec<Gate> = Vec::new();
    table.push(gate(0, Handler::DivideError, false));
    table.push(gate(3, Handler::Breakpoint, false));
    table.push(gate(6, Handler::InvalidOpcode, false));
    table.push(
        Gate {
            vector: 8,
            handler: Handler::DoubleFault,
            from_user: false,
            own_stack: Some(DOUBLE_FAULT_IST_INDEX),
        },
    );
    table.push(gate(13, Handler::GeneralProtectionFault, false));
    table.push(gate(14, Handler::PageFault, false));
    table.push(gate(InterruptIndex::Timer.as_u8(), Handler::Timer, false));
    table.push(gate(InterruptIndex::Keyboard.as_u8(), Handler::Keyboard, false));
    table.push(gate(ATA_PRIMARY_IRQ_VECTOR, Handler::AtaPrimary, false));
    table.push(gate(SYSCALL_INT_VECTOR, Handler::Syscall, true));
    table.push(gate(RING3_EXIT_INT_VECTOR, Handler::Ring3Exit, true));
    table.push(gate(RING3_TASK_EXIT_INT_VECTOR, Handler::Ring3TaskExit, true));
    table.push(gate(RING3_COOP_YIELD_INT_VECTOR, Handler::Ring3CoopYield, true));
    table.push(gate(RING3_MT_TASK_DONE_INT_VECTOR, Handler::Ring3MtTaskDone, true));
    table.push(gate(RING3_COOP_TASK_DONE_INT_VECTOR, Handler::Ring3CoopTaskDone, true));
    assert(table@ =~= gates());
    table
}

/// No vector has two gates.
pub proof fn gates_have_vectors_of_their_own(i: int, j: int)
    requires
        0 <= i < j < gates().len(),
    ensures
        gates()[i].vector < gates()[j].vector,
{
}

/// User code may go through the six gates that are meant for it, and through no other:
/// not those of the processor's exceptions, and not those of devices.
pub proof fn user_gates_are_the_calls(i: int)
    requires
        0 <= i < gates().len(),
    ensures
        gates()[i].from_user <==> 0x80 <= gates()[i].vector <= 0x85,
{
}

/// The vectors of devices meet none of the processor's exceptions, of which there are 32.
pub proof fn device_vectors_are_behind_exceptions(irq: int)
    requires
        0 <= irq < 16,
    ensures
        PIC_1_OFFSET + irq >= 32,
        irq >= 8 ==> PIC_1_OFFSET + irq == PIC_2_OFFSET + (irq - 8),
        irq == 14 ==> PIC_1_OFFSET + irq == ATA_PRIMARY_IRQ_VECTOR,
{
}

/// What is counted of interrupts.
#[derive(Debug, Clone, Copy, PartialEq, Eq, Structural)]
pub struct InterruptCounts {
    pub ticks: u64,
    pub ticks_in_user: u64,
    pub syscalls: u64,
}

/// The next count. It starts again behind the last one.
pub open spec fn counted(n: u64) -> u64 {
    if n == u64::MAX {
        0
    } else {
        (n + 1) as u64
    }
}

fn count(n: u64) -> (r: u64)
    ensures
        r == counted(n),
{
    if n == u64::MAX {
        0
    } else {
        n + 1
    }
}

impl InterruptCounts {
    pub fn new() -> (c: InterruptCounts)
        ensures
            c == (InterruptCounts { ticks: 0, ticks_in_user: 0, syscalls: 0 }),
    {
        InterruptCounts { ticks: 0, ticks_in_user: 0, syscalls: 0 }
    }
}

/// The ticks of the timer so far.
pub fn timer_ticks(counts: &InterruptCounts) -> (n: u64)
    ensures
        n == counts.ticks,
{
    counts.ticks
}

/// The ticks of the timer that came while user code was running.
pub fn ticks_while_ring3(counts: &InterruptCounts) -> (n: u64)
    ensures
        n == counts.ticks_in_user,
{
    counts.ticks_in_user
}

/// The system calls so far.
pub fn syscall_int_count(counts: &InterruptCounts) -> (n: u64)
    ensures
        n == counts.syscalls,
{
    counts.syscalls
}

/// What a tick of the timer calls for, in this order: the interrupt is ended; the
/// schedulers of kernel tasks are told; and those of user tasks are, if it came while user
/// code was running.
#[derive(Debug, Clone, Copy, PartialEq, Eq, Structural)]
pub struct Tick {
    /// The vector whose interrupt is ended.
    pub end_of_interrupt: u8,
    /// User code was running.
    pub interrupted_user: bool,
}

/// Counts a tick that came while code of this privilege was running.
pub fn handle_timer_tick(counts: &mut InterruptCounts, caller_rpl: u64) -> (t: Tick)
    ensures
        t == (Tick { end_of_interrupt: PIC_1_OFFSET, interrupted_user: caller_rpl == 3 }),
        *final(counts) == (InterruptCounts {
            ticks: counted(old(counts).ticks),
            ticks_in_user: if caller_rpl == 3 {
                counted(old(counts).ticks_in_user)
            } else {
                old(counts).ticks_in_user
            },
            ..*old(counts)
        }),
{
    counts.ticks = count(counts.ticks);
    let interrupted_user: bool = caller_rpl == 3;
    if interrupted_user {
        counts.ticks_in_user = count(counts.ticks_in_user);
    }
    Tick { end_of_interrupt: InterruptIndex::Timer.as_u8(), interrupted_user }
}

/// A system call: its number, its arguments, and whether user code makes it.
#[derive(Debug, Clone, Copy, PartialEq, Eq, Structural)]
pub struct SyscallRequest {
    pub number: u64,
    pub arg1: u64,
    pub arg2: u64,
    pub arg3: u64,
    pub from_user: bool,
}

/// Counts a system call that came from code of this privilege.
pub fn handle_real_syscall(
    counts: &mut InterruptCounts,
    sys_nr: u64,
    arg1: u64,
    arg2: u64,
    arg3: u64,
    caller_rpl: u64,
) -> (r: SyscallRequest)
    ensures
        r == (SyscallRequest { number: sys_nr, arg1, arg2, arg3, from_user: caller_rpl == 3 }),
        *final(counts) == (InterruptCounts {
            syscalls: counted(old(counts).syscalls),
            ..*old(counts)
        }),
{
    counts.syscalls = count(counts.syscalls);
    SyscallRequest { number: sys_nr, arg1, arg2, arg3, from_user: caller_rpl == 3 }
}

/// What the entries of system calls and of the timer keep of the code that they interrupt:
/// fifteen registers, and then the five words that the processor kept.
pub const SAVED_WORDS: usize = 20;

/// Where among these words the code segment is.
pub const SAVED_CS: usize = 16;

/// The privilege of the code that was interrupted, as the saved words tell.
pub fn caller_rpl(saved: &[u64; 20]) -> (r: u64)
    ensures
        r == saved@[SAVED_CS as int] % 4,
        r < 4,
{
    saved[SAVED_CS] % 4
}

/// The exceptions and the devices have the vectors that the processor and the controllers give
/// them, each handler has one gate, and of all of them only that of the double fault has a stack
/// of its own.
pub proof fn gates_are_where_they_belong(i: int)
    requires
        0 <= i < gates().len(),
    ensures
        ({
            let g = gates()[i];
            &&& g.handler is DivideError <==> g.vector == 0
            &&& g.handler is Breakpoint <==> g.vector == 3
            &&& g.handler is InvalidOpcode <==> g.vector == 6
            &&& g.handler is DoubleFault <==> g.vector == 8
            &&& g.handler is GeneralProtectionFault <==> g.vector == 13
            &&& g.handler is PageFault <==> g.vector == 14
            &&& g.handler is Timer <==> g.vector == 32
            &&& g.handler is Keyboard <==> g.vector == 33
            &&& g.handler is AtaPrimary <==> g.vector == 46
            &&& g.handler is Syscall <==> g.vector == 0x80
            &&& g.handler is Ring3Exit <==> g.vector == 0x81
            &&& g.handler is Ring3TaskExit <==> g.vector == 0x82
            &&& g.handler is Ring3CoopYield <==> g.vector == 0x83
            &&& g.handler is Ring3MtTaskDone <==> g.vector == 0x84
            &&& g.handler is Ring3CoopTaskDone <==> g.vector == 0x85
            &&& g.own_stack is Some <==> g.vector == 8
        }),
        gates().len() == 15,
        vector_of(InterruptIndex::Timer) == 32,
        vector_of(InterruptIndex::Keyboard) == 33,
{
}

/// A count goes up by one, and starts again at zero behind the last one.
pub proof fn counts_go_up_by_one(n: u64)
    ensures
        counted(n) == (n + 1) % 0x1_0000_0000_0000_0000,
{
}

} // verus!
