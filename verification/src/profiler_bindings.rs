//! Row and key records laid out exactly as the out-of-process consumer reads
//! them: field order and widths are a compatibility contract.

use vstd::prelude::*;

verus! {

/// One fixed-size unwind-table record as published to the consumer:
/// `pc` is the sort key, the remaining fields encode the unwind rule.
#[allow(non_camel_case_types)]
#[derive(Debug, Copy, Clone)]
pub struct stack_unwind_row_t {
    pub pc: u64,
    pub cfa_offset: u16,
    pub cfa_type: u8,
    pub rbp_type: u8,
    pub rbp_offset: i16,
}

impl PartialEq for stack_unwind_row_t {
    fn eq(&self, other: &Self) -> (r: bool) {
        self.pc == other.pc
            && self.cfa_type == other.cfa_type
            && self.cfa_offset == other.cfa_offset
            && self.rbp_offset == other.rbp_offset
            && self.rbp_type == other.rbp_type
    }
}

impl vstd::std_specs::cmp::PartialEqSpecImpl for stack_unwind_row_t {
    open spec fn obeys_eq_spec() -> bool {
        true
    }

    open spec fn eq_spec(&self, other: &Self) -> bool {
        self.pc == other.pc
            && self.cfa_type == other.cfa_type
            && self.cfa_offset == other.cfa_offset
            && self.rbp_offset == other.rbp_offset
            && self.rbp_type == other.rbp_type
    }
}

impl Eq for stack_unwind_row_t {}

/// Aggregation key for sampled stacks, kept with the same explicit layout
/// discipline as the row record.
#[allow(non_camel_case_types)]
#[derive(Debug, Copy, Clone)]
pub struct stack_count_key_t {
    pub task_id: i32,
    pub pid: i32,
    pub tgid: i32,
    pub user_stack_id: u64,
    pub kernel_stack_id: u64,
}

impl Default for stack_count_key_t {
    fn default() -> (r: Self)
        ensures
            r.task_id == 0,
            r.pid == 0,
            r.tgid == 0,
            r.user_stack_id == 0,
            r.kernel_stack_id == 0,
    {
        Self { task_id: 0, pid: 0, tgid: 0, user_stack_id: 0, kernel_stack_id: 0 }
    }
}

} // verus!
