//! What entering user code needs to know of the segment table and the task state.

use vstd::prelude::*;

verus! {

/// The stack of the double fault handler, among those that the task state has for
/// interrupts.
pub const DOUBLE_FAULT_IST_INDEX: u16 = 0;

/// The stack that the processor takes when it comes back from user code, among those that
/// the task state has for privilege levels.
pub const RING3_RSP0_INDEX: usize = 0;

/// The bytes of either stack.
pub const STACK_SIZE: u64 = 20480;

/// The segments of user code, what privilege they ask for, and the stack that the
/// processor takes when it comes back.
#[derive(Debug, Clone, Copy, PartialEq, Eq, Structural)]
pub struct Ring3Info {
    pub user_code_selector: u16,
    pub user_data_selector: u16,
    pub user_code_rpl: u16,
    pub user_data_rpl: u16,
    pub rsp0: u64,
}

/// The privilege that a selector asks for: its low two bits.
pub open spec fn rpl(selector: u16) -> u16 {
    selector % 4
}

pub fn ring3_info(user_code_selector: u16, user_data_selector: u16, rsp0: u64) -> (info: Ring3Info)
    ensures
        info == (Ring3Info {
            user_code_selector,
            user_data_selector,
            user_code_rpl: rpl(user_code_selector),
            user_data_rpl: rpl(user_data_selector),
            rsp0,
        }),
{
    Ring3Info {
        user_code_selector,
        user_data_selector,
        user_code_rpl: user_code_selector % 4,
        user_data_rpl: user_data_selector % 4,
        rsp0,
    }
}

/// A selector is eight bytes of table for each descriptor, a bit for the table, and, in its low two
/// bits, the privilege that it asks for.
pub proof fn privilege_is_in_the_low_bits(index: u16, table: u16, privilege: u16)
    requires
        index < 8192,
        table < 2,
        privilege < 4,
    ensures
        rpl((8 * index + 4 * table + privilege) as u16) == privilege,
{
}

} // verus!
