use lightswitch::profiler_bindings::{stack_count_key_t, stack_unwind_row_t};
use lightswitch::unwind_info::{
    end_of_function_marker, in_memory_unwind_info, remove_redundant, remove_unnecesary_markers,
    sort_by_pc, CfaType, CompactUnwindRow, Error, UnwindData, CFA_TYPE_END_FDE_MARKER,
    CFA_TYPE_EXPRESSION, CFA_TYPE_FRAME_POINTER_OFFSET, CFA_TYPE_OFFSET_DID_NOT_FIT,
    CFA_TYPE_STACK_POINTER_OFFSET, CFA_TYPE_UNSUPPORTED_REGISTER_OFFSET,
};

fn row(pc: u64, cfa_type: u8, cfa_offset: u16, rbp_type: u8, rbp_offset: i16) -> stack_unwind_row_t {
    stack_unwind_row_t {
        pc,
        cfa_offset,
        cfa_type,
        rbp_type,
        rbp_offset,
    }
}

#[test]
fn marker_has_only_type_and_address() {
    let m = end_of_function_marker(0x1234);
    assert_eq!(m.pc, 0x1234);
    assert_eq!(m.cfa_type, CFA_TYPE_END_FDE_MARKER);
    assert_eq!(m.cfa_offset, 0);
    assert_eq!(m.rbp_type, 0);
    assert_eq!(m.rbp_offset, 0);
}

#[test]
fn compactor_places_markers_between_functions() {
    let r1 = CompactUnwindRow {
        pc: 0x100,
        cfa_type: CFA_TYPE_STACK_POINTER_OFFSET,
        rbp_type: 0,
        cfa_offset: 8,
        rbp_offset: 0,
    };
    let r2 = CompactUnwindRow {
        pc: 0x200,
        cfa_type: CFA_TYPE_FRAME_POINTER_OFFSET,
        rbp_type: 1,
        cfa_offset: 16,
        rbp_offset: -16,
    };
    let events = vec![
        UnwindData::Function(0x100, 0x180),
        UnwindData::Instruction(r1),
        UnwindData::Function(0x200, 0x280),
        UnwindData::Instruction(r2),
    ];
    let rows = in_memory_unwind_info(&events).unwrap();
    assert_eq!(rows.len(), 4);
    assert_eq!(rows[0], row(0x100, CFA_TYPE_STACK_POINTER_OFFSET, 8, 0, 0));
    assert_eq!(rows[1], row(0x180, CFA_TYPE_END_FDE_MARKER, 0, 0, 0));
    assert_eq!(rows[2], row(0x200, CFA_TYPE_FRAME_POINTER_OFFSET, 16, 1, -16));
    assert_eq!(rows[3], row(0x280, CFA_TYPE_END_FDE_MARKER, 0, 0, 0));
}

#[test]
fn compactor_without_functions_fails() {
    let r1 = CompactUnwindRow {
        pc: 0x100,
        cfa_type: CFA_TYPE_STACK_POINTER_OFFSET,
        rbp_type: 0,
        cfa_offset: 8,
        rbp_offset: 0,
    };
    let events = vec![UnwindData::Instruction(r1)];
    assert_eq!(
        in_memory_unwind_info(&events),
        Err(Error::ErrorNoFunctionBoundaries)
    );
    assert_eq!(
        in_memory_unwind_info(&Vec::new()),
        Err(Error::ErrorNoFunctionBoundaries)
    );
}

#[test]
fn marker_collapse_drops_superseded_marker() {
    // A marker immediately followed by a real rule at the same address
    // carries no information.
    let mut rows = vec![
        row(0x100, 2, 8, 0, 0),
        row(0x180, CFA_TYPE_END_FDE_MARKER, 0, 0, 0),
        row(0x180, 2, 16, 0, 0),
        row(0x200, CFA_TYPE_END_FDE_MARKER, 0, 0, 0),
    ];
    remove_unnecesary_markers(&mut rows);
    assert_eq!(
        rows,
        vec![
            row(0x100, 2, 8, 0, 0),
            row(0x180, 2, 16, 0, 0),
            row(0x200, CFA_TYPE_END_FDE_MARKER, 0, 0, 0),
        ]
    );
}

#[test]
fn marker_collapse_drops_trailing_marker_at_same_address() {
    let mut rows = vec![
        row(0x100, 2, 8, 0, 0),
        row(0x180, 2, 16, 0, 0),
        row(0x180, CFA_TYPE_END_FDE_MARKER, 0, 0, 0),
    ];
    remove_unnecesary_markers(&mut rows);
    assert_eq!(rows, vec![row(0x100, 2, 8, 0, 0), row(0x180, 2, 16, 0, 0)]);
}

#[test]
fn redundant_rule_collapse_keeps_first_of_each_run() {
    let mut rows = vec![
        row(0x100, 2, 8, 0, 0),
        row(0x104, 2, 8, 0, 0),
        row(0x108, 2, 8, 0, 0),
        row(0x10c, 2, 16, 0, 0),
        row(0x110, 2, 8, 0, 0),
    ];
    remove_redundant(&mut rows);
    assert_eq!(
        rows,
        vec![
            row(0x100, 2, 8, 0, 0),
            row(0x10c, 2, 16, 0, 0),
            row(0x110, 2, 8, 0, 0),
        ]
    );
}

#[test]
fn redundant_rule_collapse_is_idempotent() {
    let mut rows = vec![
        row(0x100, 2, 8, 0, 0),
        row(0x104, 2, 8, 1, -8),
        row(0x108, 2, 8, 1, -8),
        row(0x10c, 3, 1, 0, 0),
    ];
    remove_redundant(&mut rows);
    let once = rows.clone();
    remove_redundant(&mut rows);
    assert_eq!(rows, once);
}

#[test]
fn sort_by_pc_orders_and_keeps_equal_addresses_stable() {
    let mut rows = vec![
        row(0x200, 2, 8, 0, 0),
        row(0x100, CFA_TYPE_END_FDE_MARKER, 0, 0, 0),
        row(0x100, 2, 16, 0, 0),
        row(0x50, 2, 24, 0, 0),
    ];
    sort_by_pc(&mut rows);
    assert_eq!(
        rows,
        vec![
            row(0x50, 2, 24, 0, 0),
            row(0x100, CFA_TYPE_END_FDE_MARKER, 0, 0, 0),
            row(0x100, 2, 16, 0, 0),
            row(0x200, 2, 8, 0, 0),
        ]
    );
}

#[test]
fn stack_count_key_defaults_to_zero() {
    let key = stack_count_key_t::default();
    assert_eq!(key.task_id, 0);
    assert_eq!(key.pid, 0);
    assert_eq!(key.tgid, 0);
    assert_eq!(key.user_stack_id, 0);
    assert_eq!(key.kernel_stack_id, 0);
}

#[test]
fn row_equality_compares_all_fields() {
    let a = row(0x100, 2, 8, 1, -8);
    assert_eq!(a, row(0x100, 2, 8, 1, -8));
    assert_ne!(a, row(0x101, 2, 8, 1, -8));
    assert_ne!(a, row(0x100, 3, 8, 1, -8));
    assert_ne!(a, row(0x100, 2, 9, 1, -8));
    assert_ne!(a, row(0x100, 2, 8, 2, -8));
    assert_ne!(a, row(0x100, 2, 8, 1, -9));
}

#[test]
fn cfa_type_tags_match_the_row_encoding() {
    assert_eq!(CfaType::FramePointerOffset.as_u8(), CFA_TYPE_FRAME_POINTER_OFFSET);
    assert_eq!(CfaType::StackPointerOffset.as_u8(), CFA_TYPE_STACK_POINTER_OFFSET);
    assert_eq!(CfaType::Expression.as_u8(), CFA_TYPE_EXPRESSION);
    assert_eq!(CfaType::EndFdeMarker.as_u8(), CFA_TYPE_END_FDE_MARKER);
    assert_eq!(CfaType::UnsupportedRegisterOffset.as_u8(), CFA_TYPE_UNSUPPORTED_REGISTER_OFFSET);
    assert_eq!(CfaType::OffsetDidNotFit.as_u8(), CFA_TYPE_OFFSET_DID_NOT_FIT);
}
