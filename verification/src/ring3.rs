//! User code: small programs, and what the kernel prepares to run them and to come back.
//!
//! `programs` has the programs, `tasks` what is kept of a task that is not running, `cpu`
//! says what the instructions of the programs do, and `laws` proves what the programs come
//! to.

pub mod cpu;
pub mod laws;
pub mod programs;
pub mod tasks;

pub use programs::{
    run_ring3_concurrent_preemption_test, run_ring3_cooperative_test, run_ring3_exit_test,
    run_ring3_full_preempt_test, run_ring3_mt_test, run_ring3_pointer_reject_test,
    run_ring3_slice_overrun_test, run_ring3_switchto_bootstrap_test, run_ring3_syscall_test,
    run_ring3_test, run_ring3_timer_tick_test,
};
