//! What the programs come to, whatever the registers hold when they are entered.

use crate::bytes::{le32, le32_bytes, le32_round_trip, le64, le64_bytes};
use crate::interrupts::{
    RING3_COOP_YIELD_INT_VECTOR, RING3_EXIT_INT_VECTOR, RING3_TASK_EXIT_INT_VECTOR,
    SYSCALL_INT_VECTOR,
};
use crate::ring3::cpu::{
    at_once, comes_to, ecx_loop_ends, low32, one_on, r8_loop_ends, step, with_low_byte, Cpu, Effect,
};
use crate::ring3::programs::{
    coop_code, exit_code_program, fault_code, mt_task0_code, mt_task1_code, preempt_code, spin_code,
    sum_code, syscall_code, tensor_code, xor_code, LOOP_COUNT, SIGNATURE_ADDR,
};
use vstd::prelude::*;

verus! {

/// A 32-bit operand is read back as it was put into the code.
proof fn operand32(code: Seq<u8>, at: int, x: u32)
    requires
        code[at] == le32_bytes(x)[0],
        code[at + 1] == le32_bytes(x)[1],
        code[at + 2] == le32_bytes(x)[2],
        code[at + 3] == le32_bytes(x)[3],
    ensures
        le32(code, at) == x,
{
    le32_round_trip(x);
}

/// The same for 64 bits.
proof fn operand64(code: Seq<u8>, at: int, x: u64)
    requires
        forall|i: int| 0 <= i < 8 ==> code[at + i] == #[trigger] le64_bytes(x)[i],
    ensures
        le64(code, at) == x,
{
    let b = le64_bytes(x);
    let low = (x % 4294967296) as u32;
    let high = (x / 4294967296) as u32;
    assert(b[0] == le32_bytes(low)[0] && b[1] == le32_bytes(low)[1] && b[2] == le32_bytes(low)[2]
        && b[3] == le32_bytes(low)[3]);
    assert(b[4] == le32_bytes(high)[0] && b[5] == le32_bytes(high)[1] && b[6] == le32_bytes(high)[2]
        && b[7] == le32_bytes(high)[3]);
    assert(code[at + 0] == b[0]);
    operand32(code, at, low);
    operand32(code, at + 4, high);
}

/// The program that may not go on is stopped at once.
pub proof fn forbidden_instruction_faults(c: Cpu)
    requires
        c.ip == 0,
    ensures
        comes_to(fault_code(), c, Effect::Fault),
{
    at_once(fault_code(), c, Effect::Fault);
}

/// The program makes the system call to print, and is stopped after that call has come
/// back, whatever the call gave back.
pub proof fn syscall_comes_back(c: Cpu, given_back: u64)
    requires
        c.ip == 0,
    ensures
        ({
            let called = Cpu { rax: 1, ip: 7, ..c };
            &&& comes_to(syscall_code(), c, Effect::Gate(SYSCALL_INT_VECTOR, called))
            &&& comes_to(syscall_code(), Cpu { rax: given_back, ..called }, Effect::Fault)
        }),
{
    let code = syscall_code();
    let d = Cpu { rax: 1, ip: 5, ..c };
    assert(le32(code, 1) == 1);
    assert(step(code, c) == Effect::Go(d));
    let called = Cpu { rax: 1, ip: 7, ..c };
    at_once(code, d, Effect::Gate(SYSCALL_INT_VECTOR, called));
    one_on(code, c, d, Effect::Gate(SYSCALL_INT_VECTOR, called));
    at_once(code, Cpu { rax: given_back, ..called }, Effect::Fault);
}

/// The program makes the system call to print, goes on after it, and ends with the code
/// 42, whatever the call gave back.
pub proof fn exit_program_ends_with_42(c: Cpu, given_back: u64)
    requires
        c.ip == 0,
    ensures
        ({
            let called = Cpu { rax: 1, ip: 7, ..c };
            &&& comes_to(exit_code_program(), c, Effect::Gate(SYSCALL_INT_VECTOR, called))
            &&& comes_to(
                exit_code_program(),
                Cpu { rax: given_back, ..called },
                Effect::Gate(RING3_EXIT_INT_VECTOR, Cpu { rax: 42, ip: 14, ..c }),
            )
        }),
{
    let code = exit_code_program();
    let d = Cpu { rax: 1, ip: 5, ..c };
    assert(le32(code, 1) == 1);
    assert(step(code, c) == Effect::Go(d));
    let called = Cpu { rax: 1, ip: 7, ..c };
    at_once(code, d, Effect::Gate(SYSCALL_INT_VECTOR, called));
    one_on(code, c, d, Effect::Gate(SYSCALL_INT_VECTOR, called));
    let back = Cpu { rax: given_back, ..called };
    let f = Cpu { rax: 42, ip: 12, ..c };
    assert(le32(code, 8) == 42);
    assert(step(code, back) == Effect::Go(f));
    let e = Effect::Gate(RING3_EXIT_INT_VECTOR, Cpu { rax: 42, ip: 14, ..c });
    at_once(code, f, e);
    one_on(code, back, f, e);
}

/// The program makes the system call with this number and these arguments, and ends with
/// what the call gave back.
pub proof fn tensor_program_hands_result_on(c: Cpu, number: u64, args: u64, given_back: u64)
    requires
        c.ip == 0,
    ensures
        ({
            let called = Cpu { rax: number, rdi: args, ip: 22, ..c };
            &&& comes_to(tensor_code(number, args), c, Effect::Gate(SYSCALL_INT_VECTOR, called))
            &&& comes_to(
                tensor_code(number, args),
                Cpu { rax: given_back, ..called },
                Effect::Gate(
                    RING3_EXIT_INT_VECTOR,
                    Cpu { rax: given_back, rdi: args, ip: 24, ..c },
                ),
            )
        }),
{
    let code = tensor_code(number, args);
    assert forall|i: int| 0 <= i < 8 implies code[2 + i] == #[trigger] le64_bytes(number)[i] by {}
    assert forall|i: int| 0 <= i < 8 implies code[12 + i] == #[trigger] le64_bytes(args)[i] by {}
    operand64(code, 2, number);
    operand64(code, 12, args);
    assert(code[0] == 0x48 && code[1] == 0xB8 && code[10] == 0x48 && code[11] == 0xBF);
    assert(code[20] == 0xCD && code[21] == 0x80 && code[22] == 0xCD && code[23] == 0x81);
    let d = Cpu { rax: number, ip: 10, ..c };
    assert(step(code, c) == Effect::Go(d));
    let f = Cpu { rax: number, rdi: args, ip: 20, ..c };
    assert(step(code, d) == Effect::Go(f));
    let called = Cpu { rax: number, rdi: args, ip: 22, ..c };
    let e = Effect::Gate(SYSCALL_INT_VECTOR, called);
    at_once(code, f, e);
    one_on(code, d, f, e);
    one_on(code, c, d, e);
    at_once(
        code,
        Cpu { rax: given_back, ..called },
        Effect::Gate(RING3_EXIT_INT_VECTOR, Cpu { rax: given_back, rdi: args, ip: 24, ..c }),
    );
}

/// The program that loops ends with its code.
pub proof fn spin_program_ends(c: Cpu, loops: u32, exit: u32)
    requires
        c.ip == 0,
        loops > 0,
    ensures
        comes_to(
            spin_code(loops, exit),
            c,
            Effect::Gate(
                RING3_EXIT_INT_VECTOR,
                Cpu { rax: exit as u64, rcx: 0, zf: true, ip: 16, ..c },
            ),
        ),
{
    let code = spin_code(loops, exit);
    operand32(code, 1, loops);
    operand32(code, 10, exit);
    let d = Cpu { rcx: loops as u64, ip: 5, ..c };
    assert(step(code, c) == Effect::Go(d));
    let f = Cpu { rcx: 0, zf: true, ip: 9, ..c };
    let g = Cpu { rax: exit as u64, rcx: 0, zf: true, ip: 14, ..c };
    assert(step(code, f) == Effect::Go(g));
    let e = Effect::Gate(RING3_EXIT_INT_VECTOR, Cpu { ip: 16, ..g });
    assert(code[14] == 0xCD && code[15] == 0x81);
    at_once(code, g, e);
    one_on(code, f, g, e);
    ecx_loop_ends(code, d, loops as int, e);
    one_on(code, c, d, e);
}

/// The state in which the program that puts five numbers together has done so.
pub open spec fn put_together(c: Cpu, a: u32, b: u32, d: u32, si: u32, di: u32) -> Cpu {
    let r = (a ^ b ^ d ^ si ^ di) as u64;
    Cpu {
        rax: r,
        rcx: b as u64,
        rdx: d as u64,
        rsi: si as u64,
        rdi: di as u64,
        r8: 0,
        zf: r == 0,
        ip: 44,
        ..c
    }
}

/// The program that puts five numbers together comes to whatever follows.
proof fn numbers_are_put_together(
    c: Cpu,
    a: u32,
    b: u32,
    d: u32,
    si: u32,
    di: u32,
    loops: u32,
    last: Seq<u8>,
    e: Effect,
)
    requires
        c.ip == 0,
        loops > 0,
        last.len() == 2,
        comes_to(xor_code(a, b, d, si, di, loops, last), put_together(c, a, b, d, si, di), e),
    ensures
        comes_to(xor_code(a, b, d, si, di, loops, last), c, e),
{
    let code = xor_code(a, b, d, si, di, loops, last);
    xor_layout(a, b, d, si, di, loops, last);
    let c1 = Cpu { rax: a as u64, ip: 5, ..c };
    let c2 = Cpu { rcx: b as u64, ip: 10, ..c1 };
    let c3 = Cpu { rdx: d as u64, ip: 15, ..c2 };
    let c4 = Cpu { rsi: si as u64, ip: 20, ..c3 };
    let c5 = Cpu { rdi: di as u64, ip: 25, ..c4 };
    let c6 = Cpu { r8: loops as u64, ip: 31, ..c5 };
    let c7 = Cpu { r8: 0, zf: true, ip: 36, ..c6 };
    tail_puts_together(code, c7, a, b, d, si, di, put_together(c, a, b, d, si, di), e);
    r8_loop_ends(code, c6, loops as int, e);
    assert(step(code, c5) == Effect::Go(c6));
    one_on(code, c5, c6, e);
    assert(step(code, c4) == Effect::Go(c5));
    one_on(code, c4, c5, e);
    assert(step(code, c3) == Effect::Go(c4));
    one_on(code, c3, c4, e);
    assert(step(code, c2) == Effect::Go(c3));
    one_on(code, c2, c3, e);
    assert(step(code, c1) == Effect::Go(c2));
    one_on(code, c1, c2, e);
    assert(step(code, c) == Effect::Go(c1));
    one_on(code, c, c1, e);
}

/// What stands where in the program that puts five numbers together.
proof fn xor_layout(a: u32, b: u32, d: u32, si: u32, di: u32, loops: u32, last: Seq<u8>)
    ensures
        ({
            let code = xor_code(a, b, d, si, di, loops, last);
            &&& code[0] == 0xB8 && le32(code, 1) == a
            &&& code[5] == 0xB9 && le32(code, 6) == b
            &&& code[10] == 0xBA && le32(code, 11) == d
            &&& code[15] == 0xBE && le32(code, 16) == si
            &&& code[20] == 0xBF && le32(code, 21) == di
            &&& code[25] == 0x41 && code[26] == 0xB8 && le32(code, 27) == loops
            &&& code[31] == 0x41 && code[32] == 0xFF && code[33] == 0xC8
            &&& code[34] == 0x75 && code[35] == 0xFB
            &&& code[36] == 0x31 && code[37] == 0xC8 && code[38] == 0x31 && code[39] == 0xD0
            &&& code[40] == 0x31 && code[41] == 0xF0 && code[42] == 0x31 && code[43] == 0xF8
        }),
{
    let code = xor_code(a, b, d, si, di, loops, last);
    operand32(code, 1, a);
    operand32(code, 6, b);
    operand32(code, 11, d);
    operand32(code, 16, si);
    operand32(code, 21, di);
    operand32(code, 27, loops);
}

proof fn tail_puts_together(
    code: Seq<u8>,
    c: Cpu,
    a: u32,
    b: u32,
    d: u32,
    si: u32,
    di: u32,
    end: Cpu,
    e: Effect,
)
    requires
        c.ip == 36,
        code[36] == 0x31,
        code[37] == 0xC8,
        code[38] == 0x31,
        code[39] == 0xD0,
        code[40] == 0x31,
        code[41] == 0xF0,
        code[42] == 0x31,
        code[43] == 0xF8,
        c.rax == a,
        c.rcx == b,
        c.rdx == d,
        c.rsi == si,
        c.rdi == di,
        ({
            let r = (a ^ b ^ d ^ si ^ di) as u64;
            end == (Cpu { rax: r, zf: r == 0, ip: 44, ..c })
        }),
        comes_to(code, end, e),
    ensures
        comes_to(code, c, e),
{
    let c1 = xored(c, a, b);
    let c2 = xored(c1, a ^ b, d);
    let c3 = xored(c2, a ^ b ^ d, si);
    xor_step(code, c, a, b, 0xC8);
    xor_step(code, c1, a ^ b, d, 0xD0);
    xor_step(code, c2, a ^ b ^ d, si, 0xF0);
    xor_step(code, c3, a ^ b ^ d ^ si, di, 0xF8);
    one_on(code, c3, end, e);
    one_on(code, c2, c3, e);
    one_on(code, c1, c2, e);
    one_on(code, c, c1, e);
}

/// The state after a number was put into eax by exclusive or.
spec fn xored(c: Cpu, x: u32, y: u32) -> Cpu {
    Cpu { rax: (x ^ y) as u64, zf: (x ^ y) as u64 == 0, ip: c.ip + 2, ..c }
}

proof fn xor_step(code: Seq<u8>, c: Cpu, x: u32, y: u32, which: u8)
    requires
        code[c.ip] == 0x31,
        code[c.ip + 1] == which,
        c.rax == x,
        (which == 0xC8 && c.rcx == y) || (which == 0xD0 && c.rdx == y) || (which == 0xF0 && c.rsi
            == y) || (which == 0xF8 && c.rdi == y),
    ensures
        step(code, c) == Effect::Go(xored(c, x, y)),
{
    assert(low32(x as u64) == x);
    assert(low32(y as u64) == y);
}

/// The program whose registers the timer must not change ends with 0x11111111, if none was
/// changed.
pub proof fn preempt_program_ends(c: Cpu)
    requires
        c.ip == 0,
    ensures
        exists|d: Cpu| #[trigger]
            comes_to(preempt_code(), c, Effect::Gate(RING3_EXIT_INT_VECTOR, d)) && d.rax
                == 0x1111_1111,
{
    let done = put_together(
        c,
        0x1111_1111,
        0x2222_2222,
        0x3333_3333,
        0x4444_4444,
        0x5555_5555,
    );
    assert(0x1111_1111u32 ^ 0x2222_2222u32 ^ 0x3333_3333u32 ^ 0x4444_4444u32 ^ 0x5555_5555u32
        == 0x1111_1111u32) by (bit_vector);
    let d = Cpu { ip: 46, ..done };
    let e = Effect::Gate(RING3_EXIT_INT_VECTOR, d);
    let code = preempt_code();
    assert(code[44] == 0xCD && code[45] == 0x81);
    at_once(code, done, e);
    numbers_are_put_together(
        c,
        0x1111_1111,
        0x2222_2222,
        0x3333_3333,
        0x4444_4444,
        0x5555_5555,
        LOOP_COUNT,
        seq![0xCDu8, 0x81],
        e,
    );
}

/// The first of the two tasks that the timer switches ends with 0x10000004.
pub proof fn first_mt_task_ends(c: Cpu)
    requires
        c.ip == 0,
    ensures
        exists|d: Cpu| #[trigger]
            comes_to(mt_task0_code(), c, Effect::Gate(RING3_EXIT_INT_VECTOR, d)) && d.rax
                == 0x1000_0004,
{
    let done = put_together(
        c,
        0x1000_0000,
        0x1000_0001,
        0x1000_0002,
        0x1000_0003,
        0x1000_0004,
    );
    assert(0x1000_0000u32 ^ 0x1000_0001u32 ^ 0x1000_0002u32 ^ 0x1000_0003u32 ^ 0x1000_0004u32
        == 0x1000_0004u32) by (bit_vector);
    let d = Cpu { ip: 46, ..done };
    let e = Effect::Gate(RING3_EXIT_INT_VECTOR, d);
    let code = mt_task0_code();
    assert(code[44] == 0xCD && code[45] == 0x81);
    at_once(code, done, e);
    numbers_are_put_together(
        c,
        0x1000_0000,
        0x1000_0001,
        0x1000_0002,
        0x1000_0003,
        0x1000_0004,
        LOOP_COUNT,
        seq![0xCDu8, 0x81],
        e,
    );
}

/// Once the second of them has put its numbers together it holds 0x20000004 and stays where
/// it is, so that it holds the same however often it is looked at.
pub proof fn second_mt_task_stays(c: Cpu)
    ensures
        ({
            let done = put_together(
                c,
                0x2000_0000,
                0x2000_0001,
                0x2000_0002,
                0x2000_0003,
                0x2000_0004,
            );
            &&& done.rax == 0x2000_0004
            &&& step(mt_task1_code(), done) == Effect::Go(done)
        }),
{
    assert(0x2000_0000u32 ^ 0x2000_0001u32 ^ 0x2000_0002u32 ^ 0x2000_0003u32 ^ 0x2000_0004u32
        == 0x2000_0004u32) by (bit_vector);
    let code = mt_task1_code();
    assert(code[44] == 0xEB && code[45] == 0xFE);
}

/// The program that adds up ends with 15.
pub proof fn sum_program_ends_with_15(c: Cpu)
    requires
        c.ip == 0,
    ensures
        comes_to(
            sum_code(),
            c,
            Effect::Gate(
                RING3_TASK_EXIT_INT_VECTOR,
                Cpu { rax: 15, rcx: 0, zf: true, ip: 18, ..c },
            ),
        ),
{
    let code = sum_code();
    assert(le32(code, 1) == 5);
    assert(le32(code, 6) == 0);
    let d = Cpu { rcx: 5, ip: 5, ..c };
    let f = Cpu { rcx: 5, rax: 0, ip: 10, ..c };
    assert(step(code, c) == Effect::Go(d));
    assert(step(code, d) == Effect::Go(f));
    let e = Effect::Gate(
        RING3_TASK_EXIT_INT_VECTOR,
        Cpu { rax: 15, rcx: 0, zf: true, ip: 18, ..c },
    );
    sum_loop_ends(f, 5, e);
    one_on(code, d, f, e);
    one_on(code, c, d, e);
}

proof fn sum_loop_ends(c: Cpu, k: int, e: Effect)
    requires
        1 <= k <= 5,
        c.ip == 10,
        c.rcx == k,
        c.rax + k * (k + 1) / 2 == 15,
        e == Effect::Gate(
            RING3_TASK_EXIT_INT_VECTOR,
            Cpu { rax: 15, rcx: 0, zf: true, ip: 18, ..c },
        ),
    ensures
        comes_to(sum_code(), c, e),
    decreases k,
{
    let code = sum_code();
    assert(k == 1 || k == 2 || k == 3 || k == 4 || k == 5);
    let r = (c.rax + k) as u64;
    let c1 = Cpu { rax: r, zf: false, ip: 12, ..c };
    assert(low32(c.rax) == c.rax && low32(c.rcx) == k);
    assert(step(code, c) == Effect::Go(c1));
    let c2 = Cpu { rcx: (k - 1) as u64, zf: k == 1, ip: 14, ..c1 };
    assert(step(code, c1) == Effect::Go(c2));
    if k == 1 {
        let c3 = Cpu { ip: 16, ..c2 };
        assert(step(code, c2) == Effect::Go(c3));
        assert(c3.rax == 15);
        at_once(code, c3, e);
        one_on(code, c2, c3, e);
    } else {
        let c3 = Cpu { ip: 10, ..c2 };
        assert(step(code, c2) == Effect::Go(c3));
        assert(c3.rax + (k - 1) * k / 2 == 15);
        sum_loop_ends(Cpu { zf: false, ..c3 }, k - 1, e);
        one_on(code, c2, c3, e);
    }
    one_on(code, c1, c2, e);
    one_on(code, c, c1, e);
}

/// The beginning of a task of those that take turns: its number and the place of the
/// letters.
proof fn task_begins(c: Cpu, task: int, e: Effect)
    requires
        task == 0 || task == 1,
        c.ip == 16 * task,
        c.rbx == 0,
        comes_to(
            coop_code(SIGNATURE_ADDR),
            Cpu { rbx: task as u64, r12: SIGNATURE_ADDR, ip: 32, ..c },
            e,
        ),
    ensures
        comes_to(coop_code(SIGNATURE_ADDR), c, e),
{
    let code = coop_code(SIGNATURE_ADDR);
    let c1 = Cpu { r12: SIGNATURE_ADDR, ip: 16 * task + 10, ..c };
    let c2 = Cpu { rbx: task as u64, ip: 16 * task + 12, ..c1 };
    let c3 = Cpu { ip: 32, ..c2 };
    if task == 0 {
        assert forall|i: int| 0 <= i < 8 implies code[2 + i] == #[trigger] le64_bytes(
            SIGNATURE_ADDR,
        )[i] by {}
        operand64(code, 2, SIGNATURE_ADDR);
        assert(code[0] == 0x49 && code[1] == 0xBC && code[10] == 0xB3 && code[11] == 0x00
            && code[12] == 0xEB && code[13] == 0x12);
    } else {
        assert forall|i: int| 0 <= i < 8 implies code[18 + i] == #[trigger] le64_bytes(
            SIGNATURE_ADDR,
        )[i] by {}
        operand64(code, 18, SIGNATURE_ADDR);
        assert(code[16] == 0x49 && code[17] == 0xBC && code[26] == 0xB3 && code[27] == 0x01
            && code[28] == 0xEB && code[29] == 0x02);
    }
    assert(step(code, c) == Effect::Go(c1));
    assert(step(code, c1) == Effect::Go(c2));
    assert(step(code, c2) == Effect::Go(c3));
    one_on(code, c2, c3, e);
    one_on(code, c1, c2, e);
    one_on(code, c, c1, e);
}

/// The low byte of a register is the one that was put there, and can be replaced again.
proof fn low_byte_is_replaced(x: u64, b: int, d: int)
    requires
        0 <= b < 256,
        0 <= d < 256,
    ensures
        with_low_byte(x, b) as int % 256 == b,
        with_low_byte(with_low_byte(x, b), d) == with_low_byte(x, d),
{
    let top = x - x % 256;
    assert(top % 256 == 0);
    assert(with_low_byte(x, b) == top + b);
    assert((top + b) % 256 == b);
}

/// A task of those that take turns, up to where it lets the other one run: it leaves its
/// letter at the place of its number.
proof fn letter_is_left(c: Cpu, task: int)
    requires
        task == 0 || task == 1,
        c.ip == 16 * task,
        c.rbx == 0,
    ensures
        comes_to(
            coop_code(SIGNATURE_ADDR),
            c,
            Effect::Gate(RING3_COOP_YIELD_INT_VECTOR, after_letter(c, task)),
        ),
{
    let code = coop_code(SIGNATURE_ADDR);
    let e = Effect::Gate(RING3_COOP_YIELD_INT_VECTOR, after_letter(c, task));
    let c3 = Cpu { rbx: task as u64, r12: SIGNATURE_ADDR, ip: 32, ..c };
    let c4 = Cpu { rax: with_low_byte(c.rax, task), ip: 34, ..c3 };
    let c5 = Cpu { rax: with_low_byte(c.rax, 0x41 + task), zf: false, ip: 36, ..c4 };
    let c6 = Cpu {
        memory: c.memory.insert(SIGNATURE_ADDR + task, (0x41 + task) as u8),
        ip: 40,
        ..c5
    };
    low_byte_is_replaced(c.rax, task, 0x41 + task);
    low_byte_is_replaced(c.rax, 0x41 + task, 0);
    assert(code[32] == 0x8A && code[33] == 0xC3 && code[34] == 0x04 && code[35] == 0x41);
    assert(step(code, c3) == Effect::Go(c4));
    assert(step(code, c4) == Effect::Go(c5));
    assert(code[36] == 0x41 && code[37] == 0x88 && code[38] == 0x04 && code[39] == 0x1C);
    assert(step(code, c5) == Effect::Go(c6));
    assert(code[40] == 0xCD && code[41] == 0x83);
    at_once(code, c6, e);
    one_on(code, c5, c6, e);
    one_on(code, c4, c5, e);
    one_on(code, c3, c4, e);
    task_begins(c, task, e);
}

/// The state in which a task lets the other one run.
pub open spec fn after_letter(c: Cpu, task: int) -> Cpu {
    Cpu {
        rax: with_low_byte(c.rax, 0x41 + task),
        rbx: task as u64,
        r12: SIGNATURE_ADDR,
        zf: false,
        ip: 42,
        memory: c.memory.insert(SIGNATURE_ADDR + task, (0x41 + task) as u8),
        ..c
    }
}

/// A task of those that take turns, from where it is let run again: it leaves a letter at
/// the third place and ends.
proof fn last_letter_is_left(c: Cpu)
    requires
        c.ip == 42,
        c.rbx == 0,
        c.r12 == SIGNATURE_ADDR,
    ensures
        comes_to(
            coop_code(SIGNATURE_ADDR),
            c,
            Effect::Gate(
                RING3_TASK_EXIT_INT_VECTOR,
                Cpu {
                    rax: 42,
                    zf: false,
                    ip: 58,
                    memory: c.memory.insert(SIGNATURE_ADDR + 2, 0x43),
                    ..c
                },
            ),
        ),
{
    let code = coop_code(SIGNATURE_ADDR);
    let c1 = Cpu { rax: with_low_byte(c.rax, 0), ip: 44, ..c };
    let c2 = Cpu { rax: with_low_byte(c.rax, 0x43), zf: false, ip: 46, ..c };
    let c3 = Cpu { memory: c.memory.insert(SIGNATURE_ADDR + 2, 0x43), ip: 51, ..c2 };
    let c4 = Cpu { rax: 42, ip: 56, ..c3 };
    let e = Effect::Gate(RING3_TASK_EXIT_INT_VECTOR, Cpu { ip: 58, ..c4 });
    assert(code[42] == 0x8A && code[43] == 0xC3 && code[44] == 0x04 && code[45] == 0x43);
    assert(step(code, c) == Effect::Go(c1));
    low_byte_is_replaced(c.rax, 0, 0x43);
    low_byte_is_replaced(c.rax, 0x43, 0);
    assert(step(code, c1) == Effect::Go(c2));
    assert(code[46] == 0x41 && code[47] == 0x88 && code[48] == 0x44 && code[49] == 0x24 && code[50]
        == 0x02);
    assert(step(code, c2) == Effect::Go(c3));
    assert(code[51] == 0xB8 && code[52] == 0x2A && code[53] == 0 && code[54] == 0 && code[55] == 0);
    assert(le32(code, 52) == 42);
    assert(step(code, c3) == Effect::Go(c4));
    assert(code[56] == 0xCD && code[57] == 0x82);
    at_once(code, c4, e);
    one_on(code, c3, c4, e);
    one_on(code, c2, c3, e);
    one_on(code, c1, c2, e);
    one_on(code, c, c1, e);
}

/// Two tasks that take turns leave the letters A, B and C, and the first one ends with the
/// code 42. The first begins with the kept registers zero, and leaves A; the second then
/// does, and leaves B; the first goes on with the kept registers that it had, and leaves C.
/// The registers that are not kept may hold anything at each turn.
pub proof fn turns_leave_abc(first: Cpu, second: Cpu, again: Cpu)
    requires
        first.ip == 0,
        first.rbx == 0,
        second.ip == 16,
        second.rbx == 0,
        second.memory == first.memory.insert(SIGNATURE_ADDR as int, 0x41),
        again.ip == 42,
        again.rbx == 0,
        again.r12 == SIGNATURE_ADDR,
        again.memory == second.memory.insert(SIGNATURE_ADDR + 1, 0x42),
    ensures
        exists|y: Cpu| #[trigger]
            comes_to(coop_code(SIGNATURE_ADDR), first, Effect::Gate(RING3_COOP_YIELD_INT_VECTOR, y))
                && y.ip == again.ip && y.rbx == again.rbx && y.r12 == again.r12 && y.memory
                == second.memory,
        exists|y: Cpu| #[trigger]
            comes_to(
                coop_code(SIGNATURE_ADDR),
                second,
                Effect::Gate(RING3_COOP_YIELD_INT_VECTOR, y),
            ) && y.memory == again.memory,
        exists|y: Cpu| #[trigger]
            comes_to(coop_code(SIGNATURE_ADDR), again, Effect::Gate(RING3_TASK_EXIT_INT_VECTOR, y))
                && y.rax == 42 && y.memory[SIGNATURE_ADDR as int] == 0x41
                && y.memory[SIGNATURE_ADDR + 1] == 0x42 && y.memory[SIGNATURE_ADDR + 2] == 0x43,
{
    letter_is_left(first, 0);
    letter_is_left(second, 1);
    last_letter_is_left(again);
}

} // verus!
