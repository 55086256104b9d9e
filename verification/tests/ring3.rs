use agentos_kernel::gdt::{ring3_info, Ring3Info};
use agentos_kernel::interrupts::{
    caller_rpl, handle_real_syscall, handle_timer_tick, init_idt, syscall_int_count,
    ticks_while_ring3, timer_ticks, Handler, InterruptCounts, InterruptIndex,
};
use agentos_kernel::memory::user_page::{HEAP_START, USER_TEST_PAGE_ADDR};
use agentos_kernel::ring3::programs::{ticked_during_ring3, UserProgram};
use agentos_kernel::ring3::tasks::{ring3_coop_yield_helper, Turns};
use agentos_kernel::ring3::{
    run_ring3_concurrent_preemption_test, run_ring3_cooperative_test, run_ring3_exit_test,
    run_ring3_full_preempt_test, run_ring3_mt_test, run_ring3_pointer_reject_test,
    run_ring3_slice_overrun_test, run_ring3_switchto_bootstrap_test, run_ring3_syscall_test,
    run_ring3_test, run_ring3_timer_tick_test,
};

fn info() -> Ring3Info {
    ring3_info(0x2B, 0x23, 0x7000)
}

fn in_test_page(p: &UserProgram, code: &[u8]) {
    assert_eq!(p.at, USER_TEST_PAGE_ADDR);
    assert_eq!(p.code, code);
    assert_eq!(p.frame.rip, USER_TEST_PAGE_ADDR);
    assert_eq!(p.frame.cs, 0x2B);
    assert_eq!(p.frame.rflags, 0x202);
    assert_eq!(p.frame.rsp, USER_TEST_PAGE_ADDR + 4096);
    assert_eq!(p.frame.ss, 0x23);
}

#[test]
fn segments_of_user_code() {
    let i = info();
    assert_eq!((i.user_code_rpl, i.user_data_rpl, i.rsp0), (3, 3, 0x7000));
    assert_eq!(ring3_info(0x08, 0x11, 0).user_code_rpl, 0);
    assert_eq!(ring3_info(0x08, 0x11, 0).user_data_rpl, 1);
}

#[test]
fn short_programs() {
    in_test_page(&run_ring3_test(&info()), &[0xFA]);
    in_test_page(&run_ring3_syscall_test(&info()), &[0xB8, 1, 0, 0, 0, 0xCD, 0x80, 0xFA]);
    in_test_page(
        &run_ring3_exit_test(&info()),
        &[0xB8, 1, 0, 0, 0, 0xCD, 0x80, 0xB8, 0x2A, 0, 0, 0, 0xCD, 0x81, 0xFA],
    );
}

#[test]
fn programs_with_pointers() {
    let mut code = vec![0x48, 0xB8];
    code.extend_from_slice(&4u64.to_le_bytes());
    code.extend_from_slice(&[0x48, 0xBF]);
    code.extend_from_slice(&(USER_TEST_PAGE_ADDR + 256).to_le_bytes());
    code.extend_from_slice(&[0xCD, 0x80, 0xCD, 0x81]);
    let (p, args) = run_ring3_pointer_reject_test(&info(), HEAP_START);
    in_test_page(&p, &code);
    assert_eq!((args.weights, args.weights_len), (HEAP_START, 1));
    assert_eq!((args.outputs, args.outputs_len), (HEAP_START, 1));
    let (p, args) = run_ring3_slice_overrun_test(&info());
    in_test_page(&p, &code);
    assert_eq!((args.weights, args.weights_len), (USER_TEST_PAGE_ADDR + 4092, 2));
    assert_eq!((args.inputs, args.inputs_len), (0, 0));
}

/// A processor that runs the instructions of the programs, up to the first interrupt that
/// one raises.
#[derive(Default, Clone)]
struct Cpu {
    eax: u32,
    ebx: u32,
    ecx: u32,
    edx: u32,
    esi: u32,
    edi: u32,
    r8: u32,
    r12: u64,
    zf: bool,
    ip: usize,
    left: Vec<(u64, u8)>,
}

impl Cpu {
    fn run(&mut self, code: &[u8]) -> u8 {
        let imm = |at: usize| {
            u32::from_le_bytes([code[at], code[at + 1], code[at + 2], code[at + 3]])
        };
        loop {
            let i = self.ip;
            match (code[i], *code.get(i + 1).unwrap_or(&0)) {
                (0xB8, _) => (self.eax, self.ip) = (imm(i + 1), i + 5),
                (0xB9, _) => (self.ecx, self.ip) = (imm(i + 1), i + 5),
                (0xBA, _) => (self.edx, self.ip) = (imm(i + 1), i + 5),
                (0xBE, _) => (self.esi, self.ip) = (imm(i + 1), i + 5),
                (0xBF, _) => (self.edi, self.ip) = (imm(i + 1), i + 5),
                (0xB3, b) => (self.ebx, self.ip) = (self.ebx & !255 | b as u32, i + 2),
                (0x41, 0xB8) => (self.r8, self.ip) = (imm(i + 2), i + 6),
                (0x49, 0xBC) => {
                    self.r12 = imm(i + 2) as u64 | (imm(i + 6) as u64) << 32;
                    self.ip = i + 10;
                }
                (0xFF, 0xC9) => {
                    self.ecx = self.ecx.wrapping_sub(1);
                    (self.zf, self.ip) = (self.ecx == 0, i + 2);
                }
                (0x41, 0xFF) => {
                    self.r8 = self.r8.wrapping_sub(1);
                    (self.zf, self.ip) = (self.r8 == 0, i + 3);
                }
                (0x75, d) => {
                    let to = (i as i64 + 2 + d as i8 as i64) as usize;
                    self.ip = if self.zf { i + 2 } else { to };
                }
                (0xEB, d) => {
                    let to = (i as i64 + 2 + d as i8 as i64) as usize;
                    if to == i {
                        return 0;
                    }
                    self.ip = to;
                }
                (0x01, 0xC8) => {
                    self.eax = self.eax.wrapping_add(self.ecx);
                    (self.zf, self.ip) = (self.eax == 0, i + 2);
                }
                (0x31, which) => {
                    let other = match which {
                        0xC8 => self.ecx,
                        0xD0 => self.edx,
                        0xF0 => self.esi,
                        _ => self.edi,
                    };
                    self.eax ^= other;
                    (self.zf, self.ip) = (self.eax == 0, i + 2);
                }
                (0x8A, 0xC3) => {
                    self.eax = self.eax & !255 | self.ebx & 255;
                    self.ip = i + 2;
                }
                (0x04, b) => {
                    let al = (self.eax as u8).wrapping_add(b);
                    self.eax = self.eax & !255 | al as u32;
                    self.ip = i + 2;
                }
                (0x41, 0x88) if code[i + 2] == 0x04 => {
                    self.left.push((self.r12 + self.ebx as u64, self.eax as u8));
                    self.ip = i + 4;
                }
                (0x41, 0x88) => {
                    self.left.push((self.r12 + code[i + 4] as u64, self.eax as u8));
                    self.ip = i + 5;
                }
                (0xCD, vector) => {
                    self.ip = i + 2;
                    return vector;
                }
                (op, _) => panic!("instruction {:#x}", op),
            }
        }
    }
}

#[test]
fn loops_end_with_their_codes() {
    let p = run_ring3_timer_tick_test(&info());
    assert_eq!(&p.code[1..5], &150_000_000u32.to_le_bytes());
    // The same program with a short loop.
    let mut code = p.code.clone();
    code[1..5].copy_from_slice(&3u32.to_le_bytes());
    let mut cpu = Cpu::default();
    assert_eq!(cpu.run(&code), 0x81);
    assert_eq!(cpu.eax, 77);
    let mut code = run_ring3_concurrent_preemption_test(&info()).code;
    code[1..5].copy_from_slice(&1u32.to_le_bytes());
    let mut cpu = Cpu::default();
    assert_eq!(cpu.run(&code), 0x81);
    assert_eq!(cpu.eax, 88);
    assert!(ticked_during_ring3(4, 5));
    assert!(!ticked_during_ring3(4, 4));
}

#[test]
fn registers_are_put_together() {
    let mut code = run_ring3_full_preempt_test(&info()).code;
    assert_eq!(code.len(), 46);
    code[27..31].copy_from_slice(&9u32.to_le_bytes());
    let mut cpu = Cpu::default();
    assert_eq!(cpu.run(&code), 0x81);
    assert_eq!(cpu.eax, 0x1111_1111);
}

#[test]
fn two_tasks_for_the_timer() {
    let t = run_ring3_mt_test(&info());
    assert_eq!(t.task1.at, USER_TEST_PAGE_ADDR + 128);
    assert_eq!(t.task0.frame.rsp, USER_TEST_PAGE_ADDR + 2048);
    assert_eq!(t.task1.frame.rsp, USER_TEST_PAGE_ADDR + 3072);
    let mut code = t.task0.code.clone();
    code[27..31].copy_from_slice(&5u32.to_le_bytes());
    let mut cpu = Cpu::default();
    assert_eq!(cpu.run(&code), 0x81);
    assert_eq!(cpu.eax, 0x1000_0004);
    let mut code = t.task1.code.clone();
    code[27..31].copy_from_slice(&5u32.to_le_bytes());
    let mut cpu = Cpu::default();
    assert_eq!(cpu.run(&code), 0);
    assert_eq!(cpu.eax, 0x2000_0004);
    let c = t.task1_context;
    assert!(c[..120].iter().all(|&b| b == 0));
    assert_eq!(&c[120..128], &(USER_TEST_PAGE_ADDR + 128).to_le_bytes());
    assert_eq!(&c[128..136], &0x2Bu64.to_le_bytes());
    assert_eq!(&c[136..144], &0x202u64.to_le_bytes());
    assert_eq!(&c[144..152], &(USER_TEST_PAGE_ADDR + 3072).to_le_bytes());
    assert_eq!(&c[152..160], &0x23u64.to_le_bytes());
}

#[test]
fn a_task_that_is_switched_to() {
    let (p, stack) = run_ring3_switchto_bootstrap_test(&info(), 0x9_0007, 0xABCD);
    let mut cpu = Cpu::default();
    assert_eq!(cpu.run(&p.code), 0x82);
    assert_eq!(cpu.eax, 15);
    assert_eq!(stack.sp, 0x9_0000 - 8 - 96);
    assert_eq!(
        stack.words,
        vec![
            0,
            0,
            0,
            0,
            0,
            0,
            0xABCD,
            USER_TEST_PAGE_ADDR,
            0x2B,
            0x202,
            USER_TEST_PAGE_ADDR + 4096,
            0x23,
        ]
    );
}

#[test]
fn tasks_that_take_turns() {
    let t = run_ring3_cooperative_test(&info(), 0x9_0000, 0xA_0000, 0xABCD);
    assert_eq!(t.code.len(), 58);
    assert_eq!(t.frame1.rip, USER_TEST_PAGE_ADDR + 16);
    let signature = USER_TEST_PAGE_ADDR + 600;
    let mut first = Cpu::default();
    assert_eq!(first.run(&t.code), 0x83);
    let mut second = Cpu { ip: 16, ..Cpu::default() };
    assert_eq!(second.run(&t.code), 0x83);
    // Only the kept registers come back.
    first.eax = 0xDEAD_BEEF;
    assert_eq!(first.run(&t.code), 0x82);
    assert_eq!(first.eax, 42);
    assert_eq!(first.left, vec![(signature, 0x41), (signature + 2, 0x43)]);
    assert_eq!(second.left, vec![(signature + 1, 0x42)]);
    let mut turns: Turns = t.turns;
    assert_eq!(ring3_coop_yield_helper(&mut turns), (t.stack0.sp, t.stack1.sp));
    assert_eq!(turns.current, 1);
    assert_eq!(ring3_coop_yield_helper(&mut turns), (t.stack1.sp, t.stack0.sp));
    assert_eq!(turns.current, 0);
}

#[test]
fn gates() {
    let table = init_idt();
    assert_eq!(table.len(), 15);
    for g in &table {
        assert_eq!(g.from_user, (0x80..=0x85).contains(&g.vector));
        assert_eq!(g.own_stack.is_some(), g.handler == Handler::DoubleFault);
    }
    let vector = |h: Handler| table.iter().find(|g| g.handler == h).map(|g| g.vector);
    assert_eq!(vector(Handler::Timer), Some(32));
    assert_eq!(vector(Handler::Keyboard), Some(33));
    assert_eq!(vector(Handler::AtaPrimary), Some(46));
    assert_eq!(vector(Handler::PageFault), Some(14));
    assert_eq!(InterruptIndex::Timer.as_u8(), 32);
    assert_eq!(InterruptIndex::Keyboard.as_u8(), 33);
}

#[test]
fn interrupts_are_counted() {
    let mut c = InterruptCounts::new();
    let t = handle_timer_tick(&mut c, 0);
    assert!(!t.interrupted_user);
    assert_eq!(t.end_of_interrupt, 32);
    let t = handle_timer_tick(&mut c, 3);
    assert!(t.interrupted_user);
    assert_eq!((timer_ticks(&c), ticks_while_ring3(&c), syscall_int_count(&c)), (2, 1, 0));
    let r = handle_real_syscall(&mut c, 4, 5, 6, 7, 3);
    assert_eq!((r.number, r.arg1, r.arg2, r.arg3, r.from_user), (4, 5, 6, 7, true));
    assert!(!handle_real_syscall(&mut c, 1, 0, 0, 0, 0).from_user);
    assert_eq!(syscall_int_count(&c), 2);
    let mut saved = [0u64; 20];
    saved[16] = 0x2B;
    assert_eq!(caller_rpl(&saved), 3);
}
