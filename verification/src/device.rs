//! Talking to devices: ports, memory that a device shares, page frames, and time.
//!
//! What a driver does with a device is a conversation. In each state it has something to
//! do and something to ask; the answers lead to the next state. The states and what leads
//! from one to the next are plain values, so whoever owns the ports and the memory does
//! what a state says and hands the answers back.

use vstd::prelude::*;

verus! {

/// Something to do to a device or its memory, or to ask of it.
#[derive(Debug, Clone, Copy, PartialEq, Eq, Structural)]
pub enum Op {
    /// Reads a port.
    In8(u16),
    In16(u16),
    In32(u16),
    /// Writes a port.
    Out8(u16, u8),
    Out16(u16, u16),
    Out32(u16, u32),
    /// Reads memory that a device shares.
    Load8(u64),
    Load16(u64),
    Load32(u64),
    /// Writes memory that a device shares.
    Store8(u64, u8),
    Store16(u64, u16),
    Store32(u64, u32),
    Store64(u64, u64),
    /// Writes so many zero bytes.
    Zero(u64, u64),
    /// Takes a page frame: its physical address.
    AllocateFrame,
    /// The timer ticks so far.
    Ticks,
    /// Waits for an interrupt.
    Halt,
}

/// Where physical addresses end.
pub const PHYS_END: u64 = 0x10_0000_0000_0000;

/// The bytes of a page frame.
pub const FRAME_SIZE: u64 = 4096;

/// An answer that such an operation can have.
pub open spec fn fits(ask: Op, answer: u64) -> bool {
    match ask {
        Op::In8(_) | Op::Load8(_) => answer < 0x100,
        Op::In16(_) | Op::Load16(_) => answer < 0x1_0000,
        Op::In32(_) | Op::Load32(_) => answer < 0x1_0000_0000,
        Op::AllocateFrame => answer % FRAME_SIZE == 0 && answer < PHYS_END,
        Op::Ticks => true,
        _ => false,
    }
}

/// One answer for each question, and each one that the question can have.
pub open spec fn all_fit(asks: Seq<Op>, answers: Seq<u64>) -> bool {
    &&& answers.len() == asks.len()
    &&& forall|i: int| 0 <= i < asks.len() ==> fits(asks[i], #[trigger] answers[i])
}

/// What a conversation has next: things to do and then to ask, in this order; or its end.
pub enum Step<T> {
    Next { writes: Vec<Op>, asks: Vec<Op> },
    Done(T),
}

/// `Step` over sequences.
pub enum StepView<T> {
    Next { writes: Seq<Op>, asks: Seq<Op> },
    Done(T),
}

impl<T> View for Step<T> {
    type V = StepView<T>;

    open spec fn view(&self) -> StepView<T> {
        match *self {
            Step::Next { writes, asks } => StepView::Next { writes: writes@, asks: asks@ },
            Step::Done(t) => StepView::Done(t),
        }
    }
}

impl<T> StepView<T> {
    /// Answers to what is asked, if anything is.
    pub open spec fn answered_by(self, answers: Seq<u64>) -> bool {
        self matches StepView::Next { writes, asks } && all_fit(asks, answers)
    }
}

/// Bytes written one after the other.
pub open spec fn stores(at: int, bytes: Seq<u8>) -> Seq<Op> {
    Seq::new(bytes.len(), |i: int| Op::Store8((at + i) as u64, bytes[i]))
}

/// Appends the writing of bytes.
pub fn push_stores(ops: &mut Vec<Op>, at: u64, bytes: &[u8])
    requires
        at + bytes.len() <= u64::MAX,
    ensures
        final(ops)@ == old(ops)@ + stores(at as int, bytes@),
{
    let mut i: usize = 0;
    assert(ops@ =~= old(ops)@ + stores(at as int, bytes@.take(0)));
    while i < bytes.len()
        invariant
            i <= bytes.len(),
            at + bytes.len() <= u64::MAX,
            ops@ == old(ops)@ + stores(at as int, bytes@.take(i as int)),
        decreases bytes.len() - i,
    {
        ops.push(Op::Store8(at + i as u64, bytes[i]));
        i = i + 1;
        assert(ops@ =~= old(ops)@ + stores(at as int, bytes@.take(i as int)));
    }
    assert(bytes@.take(bytes@.len() as int) =~= bytes@);
}

/// Reads of bytes one after the other.
pub open spec fn loads(at: int, n: int) -> Seq<Op> {
    Seq::new(n as nat, |i: int| Op::Load8((at + i) as u64))
}

/// The reading of so many bytes.
pub fn byte_loads(at: u64, n: usize) -> (ops: Vec<Op>)
    requires
        at + n <= u64::MAX,
    ensures
        ops@ == loads(at as int, n as int),
{
    let mut ops: Vec<Op> = Vec::new();
    let mut i: usize = 0;
    while i < n
        invariant
            i <= n,
            at + n <= u64::MAX,
            ops@ == loads(at as int, i as int),
        decreases n - i,
    {
        ops.push(Op::Load8(at + i as u64));
        i = i + 1;
        assert(ops@ =~= loads(at as int, i as int));
    }
    assert(ops@ =~= loads(at as int, n as int));
    ops
}

/// Answers that are bytes, as bytes.
pub open spec fn as_bytes(answers: Seq<u64>) -> Seq<u8> {
    Seq::new(answers.len(), |i: int| answers[i] as u8)
}

/// The array with these bytes.
pub open spec fn sixteen(s: Seq<u8>) -> [u8; 16] {
    choose|a: [u8; 16]| a@ == s
}

/// The sixteen bytes that are answered from number `at` on.
pub open spec fn sixteen_at(answers: Seq<u64>, at: int) -> [u8; 16] {
    sixteen(as_bytes(answers.subrange(at, at + 16)))
}

pub fn read_sixteen(answers: &[u64], at: usize) -> (r: [u8; 16])
    requires
        at + 16 <= answers.len(),
    ensures
        r == sixteen_at(answers@, at as int),
        r@ == as_bytes(answers@.subrange(at as int, at + 16)),
{
    let mut r: [u8; 16] = [0;16];
    let ghost want = as_bytes(answers@.subrange(at as int, at + 16));
    let mut i: usize = 0;
    while i < 16
        invariant
            i <= 16,
            at + 16 <= answers.len(),
            want == as_bytes(answers@.subrange(at as int, at + 16)),
            forall|k: int| 0 <= k < i ==> #[trigger] r@[k] == want[k],
        decreases 16 - i,
    {
        r[i] = answers[at + i] as u8;
        i = i + 1;
    }
    assert(r@ =~= want);
    assert(r =~= sixteen_at(answers@, at as int));
    r
}

} // verus!
