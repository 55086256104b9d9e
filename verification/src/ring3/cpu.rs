//! What the instructions of the programs do.
//!
//! Only those that the programs use are here. An instruction with a 32-bit result clears
//! the upper half of its register. Of the flags only the one for zero is kept, which is the
//! only one that the programs look at.

use crate::bytes::{le32, le64};
use vstd::prelude::*;

verus! {

/// The state of the processor while it runs a program: its registers, the flag for zero,
/// how far into the program it is, and memory.
pub struct Cpu {
    pub rax: u64,
    pub rbx: u64,
    pub rcx: u64,
    pub rdx: u64,
    pub rsi: u64,
    pub rdi: u64,
    pub r8: u64,
    pub r12: u64,
    pub zf: bool,
    pub ip: int,
    pub memory: Map<int, u8>,
}

/// What running an instruction comes to.
pub enum Effect {
    /// The program goes on.
    Go(Cpu),
    /// The program goes through a gate, and would go on from this state.
    Gate(u8, Cpu),
    /// The instruction is one that user code may not run.
    Fault,
    /// The instruction is not one of these.
    Other,
}

/// The lower half of a register.
pub open spec fn low32(x: u64) -> u32 {
    (x % 0x1_0000_0000) as u32
}

/// One less, in 32 bits.
pub open spec fn decremented(x: u64) -> u64 {
    if low32(x) == 0 {
        0xFFFF_FFFF
    } else {
        (low32(x) - 1) as u64
    }
}

/// The low byte of a register replaced.
pub open spec fn with_low_byte(x: u64, b: int) -> u64 {
    (x - x % 256 + b) as u64
}

/// A byte as a distance to jump.
pub open spec fn distance(b: u8) -> int {
    if b < 128 {
        b as int
    } else {
        b - 256
    }
}

/// Runs the instruction that the processor is at.
pub open spec fn step(code: Seq<u8>, c: Cpu) -> Effect {
    let i = c.ip;
    let b = code[i];
    let b1 = code[i + 1];
    let b2 = code[i + 2];
    let imm = le32(code, i + 1) as u64;
    if b == 0xB8 {
        Effect::Go(Cpu { rax: imm, ip: i + 5, ..c })
    } else if b == 0xB9 {
        Effect::Go(Cpu { rcx: imm, ip: i + 5, ..c })
    } else if b == 0xBA {
        Effect::Go(Cpu { rdx: imm, ip: i + 5, ..c })
    } else if b == 0xBE {
        Effect::Go(Cpu { rsi: imm, ip: i + 5, ..c })
    } else if b == 0xBF {
        Effect::Go(Cpu { rdi: imm, ip: i + 5, ..c })
    } else if b == 0xB3 {
        Effect::Go(Cpu { rbx: with_low_byte(c.rbx, b1 as int), ip: i + 2, ..c })
    } else if b == 0x41 && b1 == 0xB8 {
        Effect::Go(Cpu { r8: le32(code, i + 2) as u64, ip: i + 6, ..c })
    } else if b == 0x48 && b1 == 0xB8 {
        Effect::Go(Cpu { rax: le64(code, i + 2) as u64, ip: i + 10, ..c })
    } else if b == 0x48 && b1 == 0xBF {
        Effect::Go(Cpu { rdi: le64(code, i + 2) as u64, ip: i + 10, ..c })
    } else if b == 0x49 && b1 == 0xBC {
        Effect::Go(Cpu { r12: le64(code, i + 2) as u64, ip: i + 10, ..c })
    } else if b == 0xFF && b1 == 0xC9 {
        let r = decremented(c.rcx);
        Effect::Go(Cpu { rcx: r, zf: r == 0, ip: i + 2, ..c })
    } else if b == 0x41 && b1 == 0xFF && b2 == 0xC8 {
        let r = decremented(c.r8);
        Effect::Go(Cpu { r8: r, zf: r == 0, ip: i + 3, ..c })
    } else if b == 0x75 {
        Effect::Go(
            Cpu {
                ip: if c.zf {
                    i + 2
                } else {
                    i + 2 + distance(b1)
                },
                ..c
            },
        )
    } else if b == 0xEB {
        Effect::Go(Cpu { ip: i + 2 + distance(b1), ..c })
    } else if b == 0x01 && b1 == 0xC8 {
        let r = ((low32(c.rax) + low32(c.rcx)) % 0x1_0000_0000) as u64;
        Effect::Go(Cpu { rax: r, zf: r == 0, ip: i + 2, ..c })
    } else if b == 0x31 && (b1 == 0xC8 || b1 == 0xD0 || b1 == 0xF0 || b1 == 0xF8) {
        let other = if b1 == 0xC8 {
            c.rcx
        } else if b1 == 0xD0 {
            c.rdx
        } else if b1 == 0xF0 {
            c.rsi
        } else {
            c.rdi
        };
        let r = (low32(c.rax) ^ low32(other)) as u64;
        Effect::Go(Cpu { rax: r, zf: r == 0, ip: i + 2, ..c })
    } else if b == 0x8A && b1 == 0xC3 {
        Effect::Go(Cpu { rax: with_low_byte(c.rax, c.rbx as int % 256), ip: i + 2, ..c })
    } else if b == 0x04 {
        let r = (c.rax as int % 256 + b1) % 256;
        Effect::Go(Cpu { rax: with_low_byte(c.rax, r), zf: r == 0, ip: i + 2, ..c })
    } else if b == 0x41 && b1 == 0x88 && b2 == 0x04 && code[i + 3] == 0x1C {
        Effect::Go(
            Cpu {
                memory: c.memory.insert(c.r12 + c.rbx, (c.rax as int % 256) as u8),
                ip: i + 4,
                ..c
            },
        )
    } else if b == 0x41 && b1 == 0x88 && b2 == 0x44 && code[i + 3] == 0x24 {
        Effect::Go(
            Cpu {
                memory: c.memory.insert(
                    c.r12 + distance(code[i + 4]),
                    (c.rax as int % 256) as u8,
                ),
                ip: i + 5,
                ..c
            },
        )
    } else if b == 0xCD {
        Effect::Gate(b1, Cpu { ip: i + 2, ..c })
    } else if b == 0xFA {
        Effect::Fault
    } else {
        Effect::Other
    }
}

/// After `n` instructions the program comes to this, and no longer just goes on.
pub open spec fn ends(code: Seq<u8>, c: Cpu, n: nat, e: Effect) -> bool
    decreases n,
{
    if n == 0 {
        step(code, c) == e && !(e is Go)
    } else {
        step(code, c) matches Effect::Go(d) && ends(code, d, (n - 1) as nat, e)
    }
}

/// The program comes to this.
pub open spec fn comes_to(code: Seq<u8>, c: Cpu, e: Effect) -> bool {
    exists|n: nat| #[trigger] ends(code, c, n, e)
}

/// It comes to it at once.
pub proof fn at_once(code: Seq<u8>, c: Cpu, e: Effect)
    requires
        step(code, c) == e,
        !(e is Go),
    ensures
        comes_to(code, c, e),
{
    assert(ends(code, c, 0, e));
}

/// It comes to it if it does after the next instruction.
pub proof fn one_on(code: Seq<u8>, c: Cpu, d: Cpu, e: Effect)
    requires
        step(code, c) == Effect::Go(d),
        comes_to(code, d, e),
    ensures
        comes_to(code, c, e),
{
    let n = choose|n: nat| #[trigger] ends(code, d, n, e);
    assert(ends(code, c, n + 1, e));
}

/// A program comes to one thing only.
pub proof fn comes_to_one(code: Seq<u8>, c: Cpu, e: Effect, f: Effect)
    requires
        comes_to(code, c, e),
        comes_to(code, c, f),
    ensures
        e == f,
{
    let n = choose|n: nat| #[trigger] ends(code, c, n, e);
    let m = choose|m: nat| #[trigger] ends(code, c, m, f);
    ends_in_one(code, c, n, e, m, f);
}

proof fn ends_in_one(code: Seq<u8>, c: Cpu, n: nat, e: Effect, m: nat, f: Effect)
    requires
        ends(code, c, n, e),
        ends(code, c, m, f),
    ensures
        e == f,
    decreases n,
{
    if n > 0 && m > 0 {
        if let Effect::Go(d) = step(code, c) {
            ends_in_one(code, d, (n - 1) as nat, e, (m - 1) as nat, f);
        }
    }
}

/// A loop that counts ecx down to zero comes to what follows it.
pub proof fn ecx_loop_ends(code: Seq<u8>, c: Cpu, k: int, e: Effect)
    requires
        1 <= k <= 0xFFFF_FFFF,
        c.rcx == k,
        code[c.ip] == 0xFF,
        code[c.ip + 1] == 0xC9,
        code[c.ip + 2] == 0x75,
        code[c.ip + 3] == 0xFC,
        comes_to(code, Cpu { rcx: 0, zf: true, ip: c.ip + 4, ..c }, e),
    ensures
        comes_to(code, c, e),
    decreases k,
{
    let d = Cpu { rcx: (k - 1) as u64, zf: k == 1, ip: c.ip + 2, ..c };
    assert(step(code, c) == Effect::Go(d));
    if k == 1 {
        let f = Cpu { ip: c.ip + 4, ..d };
        assert(step(code, d) == Effect::Go(f));
        one_on(code, d, f, e);
    } else {
        let f = Cpu { ip: c.ip, ..d };
        assert(step(code, d) == Effect::Go(f));
        ecx_loop_ends(code, f, k - 1, e);
        one_on(code, d, f, e);
    }
    one_on(code, c, d, e);
}

/// A loop that counts r8d down to zero comes to what follows it.
pub proof fn r8_loop_ends(code: Seq<u8>, c: Cpu, k: int, e: Effect)
    requires
        1 <= k <= 0xFFFF_FFFF,
        c.r8 == k,
        code[c.ip] == 0x41,
        code[c.ip + 1] == 0xFF,
        code[c.ip + 2] == 0xC8,
        code[c.ip + 3] == 0x75,
        code[c.ip + 4] == 0xFB,
        comes_to(code, Cpu { r8: 0, zf: true, ip: c.ip + 5, ..c }, e),
    ensures
        comes_to(code, c, e),
    decreases k,
{
    let d = Cpu { r8: (k - 1) as u64, zf: k == 1, ip: c.ip + 3, ..c };
    assert(step(code, c) == Effect::Go(d));
    if k == 1 {
        let f = Cpu { ip: c.ip + 5, ..d };
        assert(step(code, d) == Effect::Go(f));
        one_on(code, d, f, e);
    } else {
        let f = Cpu { ip: c.ip, ..d };
        assert(step(code, d) == Effect::Go(f));
        r8_loop_ends(code, f, k - 1, e);
        one_on(code, d, f, e);
    }
    one_on(code, c, d, e);
}

} // verus!
